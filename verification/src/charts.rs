//! What the charts of the statistics show: buckets along an axis, the cells of a heat map, the
//! pages of a calendar.

use vstd::prelude::*;

use crate::date;
use crate::date::{parse_date, Date};
use crate::stats::{all_paths, commit_views, commits_wf, Commit, CommitView};
use crate::text;

verus! {

/// The most days that a heat map shows one by one.
pub const HEATMAP_DAY_LIMIT: i64 = 400;

// ---------------------------------------------------------------- counting

/// How many paths and how many commits lie in the places that `here` marks.
pub open spec fn tally(commits: Seq<CommitView>, here: spec_fn(CommitView) -> bool) -> (int, int)
    decreases commits.len(),
{
    if commits.len() == 0 {
        (0, 0)
    } else {
        let before = tally(commits.drop_last(), here);
        if here(commits.last()) {
            (before.0 + commits.last().paths.len(), before.1 + 1)
        } else {
            before
        }
    }
}

proof fn lemma_tally_bounds(commits: Seq<CommitView>, here: spec_fn(CommitView) -> bool)
    ensures
        0 <= tally(commits, here).0 <= all_paths(commits).len(),
        0 <= tally(commits, here).1 <= commits.len(),
    decreases commits.len(),
{
    if commits.len() > 0 {
        lemma_tally_bounds(commits.drop_last(), here);
    }
}

proof fn lemma_tally_step(commits: Seq<CommitView>, here: spec_fn(CommitView) -> bool, n: int)
    requires
        0 <= n < commits.len(),
    ensures
        tally(commits.take(n + 1), here) == if here(commits[n]) {
            (
                tally(commits.take(n), here).0 + commits[n].paths.len(),
                tally(commits.take(n), here).1 + 1,
            )
        } else {
            tally(commits.take(n), here)
        },
        all_paths(commits.take(n + 1)).len() <= all_paths(commits).len(),
    decreases commits.len() - n,
{
    assert(commits.take(n + 1).drop_last() =~= commits.take(n));
    if n + 1 < commits.len() {
        lemma_tally_step(commits, here, n + 1);
        assert(commits.take(n + 2).drop_last() =~= commits.take(n + 1));
    } else {
        assert(commits.take(n + 1) =~= commits);
    }
}

// ---------------------------------------------------------------- granularity

/// What a bucket covers.
#[derive(Clone, Copy, Debug, PartialEq, Eq, Structural)]
pub enum Granularity {
    Hour,
    Day,
    Month,
}

/// Hours for a single day, days for up to two months, else months.
pub open spec fn granularity(days: int) -> Granularity {
    if days <= 1 {
        Granularity::Hour
    } else if days <= 62 {
        Granularity::Day
    } else {
        Granularity::Month
    }
}

impl Granularity {
    /// What the granularity is called.
    pub open spec fn title(self) -> Seq<char> {
        match self {
            Granularity::Hour => "按小时"@,
            Granularity::Day => "按天"@,
            Granularity::Month => "按月"@,
        }
    }

    /// The granularity for a number of days.
    pub fn pick(days: i64) -> (r: Granularity)
        ensures
            r == granularity(days as int),
    {
        if days <= 1 {
            Granularity::Hour
        } else if days <= 62 {
            Granularity::Day
        } else {
            Granularity::Month
        }
    }

    /// What the granularity is called.
    pub fn label(self) -> (r: &'static str)
        ensures
            r@ == self.title(),
    {
        match self {
            Granularity::Hour => "按小时",
            Granularity::Day => "按天",
            Granularity::Month => "按月",
        }
    }
}

impl Default for Granularity {
    fn default() -> (r: Granularity)
        ensures
            r == Granularity::Day,
    {
        Granularity::Day
    }
}

// ---------------------------------------------------------------- buckets

/// A step on the axis.
#[derive(Debug)]
pub struct Bucket {
    pub key: String,
    pub label: String,
    pub files: usize,
    pub revs: usize,
}

/// The view of a `Bucket`.
pub struct BucketView {
    pub key: Seq<char>,
    pub label: Seq<char>,
    pub files: int,
    pub revs: int,
}

impl View for Bucket {
    type V = BucketView;

    open spec fn view(&self) -> BucketView {
        BucketView {
            key: self.key@,
            label: self.label@,
            files: self.files as int,
            revs: self.revs as int,
        }
    }
}

impl Clone for Bucket {
    fn clone(&self) -> (r: Bucket)
        ensures
            r == *self,
    {
        Bucket {
            key: self.key.clone(),
            label: self.label.clone(),
            files: self.files,
            revs: self.revs,
        }
    }
}

impl Default for Bucket {
    fn default() -> (r: Bucket)
        ensures
            r@ == (BucketView { key: Seq::empty(), label: Seq::empty(), files: 0, revs: 0 }),
    {
        Bucket { key: String::new(), label: String::new(), files: 0, revs: 0 }
    }
}

/// The views of the buckets in `v`.
pub open spec fn bucket_views(v: Seq<Bucket>) -> Seq<BucketView> {
    Seq::new(v.len(), |i: int| v[i]@)
}

/// The positions of those of the first `n` buckets that hold files.
pub open spec fn busy_among(buckets: Seq<BucketView>, n: int) -> Seq<usize>
    decreases n,
{
    if n <= 0 {
        Seq::empty()
    } else if buckets[n - 1].files > 0 {
        busy_among(buckets, n - 1).push((n - 1) as usize)
    } else {
        busy_among(buckets, n - 1)
    }
}

/// The positions of the buckets that hold files.
pub fn busy_buckets(buckets: &Vec<Bucket>) -> (r: Vec<usize>)
    ensures
        r@ == busy_among(bucket_views(buckets@), buckets@.len() as int),
        forall|k: int| 0 <= k < r@.len() ==> (#[trigger] r@[k]) < buckets@.len(),
{
    let ghost bv = bucket_views(buckets@);
    let mut out: Vec<usize> = Vec::new();
    let mut i: usize = 0;
    while i < buckets.len()
        invariant
            i <= buckets.len(),
            bv == bucket_views(buckets@),
            out@ == busy_among(bv, i as int),
            forall|k: int| 0 <= k < out@.len() ==> (#[trigger] out@[k]) < i,
        decreases buckets.len() - i,
    {
        assert(bv[i as int] == buckets@[i as int]@);
        if buckets[i].files > 0 {
            out.push(i);
        }
        i += 1;
    }
    out
}

/// What bucket a commit falls into.
pub open spec fn commit_key(gran: Granularity, c: CommitView) -> Seq<char> {
    match gran {
        Granularity::Hour => match text::byte_prefix(c.time, 2) {
            Some(hour) => hour,
            None => "00"@,
        },
        Granularity::Day => date::date_text(c.day),
        Granularity::Month => date::month_text(c.day),
    }
}

/// The bucket called `key`.
pub open spec fn bucket_at(
    commits: Seq<CommitView>,
    gran: Granularity,
    key: Seq<char>,
    label: Seq<char>,
) -> BucketView {
    let t = tally(commits, |c: CommitView| commit_key(gran, c) == key);
    BucketView { key, label, files: t.0, revs: t.1 }
}

/// A year in four digits as a part of a bucket's key.
pub open spec fn key_year(year: int) -> Seq<char> {
    if year < 0 {
        seq!['-'] + text::padded(-year, 3)
    } else {
        text::padded(year, 4)
    }
}

/// The key of the month with number `n`.
pub open spec fn month_key(n: int) -> Seq<char> {
    key_year(n / 12) + seq!['-'] + text::padded(n % 12 + 1, 2)
}

/// The buckets from `from` to `to`.
pub open spec fn buckets_of(commits: Seq<CommitView>, from: Date, to: Date) -> Seq<BucketView> {
    let days = to.number() - from.number() + 1;
    match granularity(days) {
        Granularity::Hour => Seq::new(
            24,
            |h: int|
                bucket_at(
                    commits,
                    Granularity::Hour,
                    text::padded(h, 2),
                    text::decimal(h) + "时"@,
                ),
        ),
        Granularity::Day => Seq::new(days as nat, |i: int| day_bucket(commits, from.number() + i)),
        Granularity::Month => Seq::new(
            (to.month_number() - from.month_number() + 1) as nat,
            |i: int| month_bucket(commits, from.month_number() + i, from.year == to.year),
        ),
    }
}

/// The bucket of the day with number `n`.
pub open spec fn day_bucket(commits: Seq<CommitView>, n: int) -> BucketView {
    let d = date::numbered(n);
    bucket_at(
        commits,
        Granularity::Day,
        date::date_text(d),
        text::padded(d.month as int, 2) + seq!['-'] + text::padded(d.day as int, 2),
    )
}

/// The bucket of the month with number `n`; its label leaves the year out where there is only one.
pub open spec fn month_bucket(commits: Seq<CommitView>, n: int, one_year: bool) -> BucketView {
    bucket_at(
        commits,
        Granularity::Month,
        month_key(n),
        if one_year {
            text::decimal(n % 12 + 1) + "月"@
        } else {
            month_key(n)
        },
    )
}

fn key_of(gran: Granularity, c: &Commit) -> (r: String)
    ensures
        r@ == commit_key(gran, c@),
{
    match gran {
        Granularity::Hour => match text::first_bytes(c.time.as_str(), 2) {
            Some(hour) => hour,
            None => "00".to_owned(),
        },
        Granularity::Day => c.day.to_text(),
        Granularity::Month => c.day.month_string(),
    }
}

/// The keys of commits.
spec fn keyed(commits: Seq<CommitView>, gran: Granularity, keys: Seq<String>) -> bool {
    &&& keys.len() == commits.len()
    &&& forall|i: int|
        0 <= i < keys.len() ==> (#[trigger] keys[i])@ == commit_key(gran, commits[i])
}

fn make_bucket(
    commits: &Vec<Commit>,
    gran: Granularity,
    keys: &Vec<String>,
    key: String,
    label: String,
) -> (r: Bucket)
    requires
        keyed(commit_views(commits@), gran, keys@),
        all_paths(commit_views(commits@)).len() <= usize::MAX,
    ensures
        r@ == bucket_at(commit_views(commits@), gran, key@, label@),
{
    let ghost cv = commit_views(commits@);
    let ghost here = |c: CommitView| commit_key(gran, c) == key@;
    let mut files: usize = 0;
    let mut revs: usize = 0;
    let mut i: usize = 0;
    assert(cv.take(0) =~= Seq::empty());
    while i < commits.len()
        invariant
            i <= commits.len(),
            cv == commit_views(commits@),
            keyed(cv, gran, keys@),
            all_paths(cv).len() <= usize::MAX,
            here == (|c: CommitView| commit_key(gran, c) == key@),
            files == tally(cv.take(i as int), here).0,
            revs == tally(cv.take(i as int), here).1,
            revs <= i,
        decreases commits.len() - i,
    {
        proof {
            lemma_tally_step(cv, here, i as int);
            lemma_tally_bounds(cv.take(i + 1), here);
            assert(keys@[i as int]@ == commit_key(gran, cv[i as int]));
            assert(cv[i as int].paths.len() == commits@[i as int].paths@.len());
        }
        if keys[i] == key {
            files += commits[i].paths.len();
            revs += 1;
        }
        i += 1;
    }
    assert(cv.take(i as int) =~= cv);
    Bucket { key, label, files, revs }
}

fn year_in_key(year: i32) -> (r: String)
    ensures
        r@ == key_year(year as int),
{
    if year < 0 {
        let digits = text::zero_filled((-(year as i64)) as u64, 3);
        let mut r: String = String::new();
        r.push('-');
        r.append(digits.as_str());
        assert(r@ =~= key_year(year as int));
        r
    } else {
        text::zero_filled(year as u64, 4)
    }
}

/// The commits spread over the buckets from `from` to `to`. A bucket without a commit is there
/// too, or a line would run straight over the gap.
pub fn bucketize(commits: &Vec<Commit>, from: Date, to: Date) -> (r: (Vec<Bucket>, Granularity))
    requires
        from.wf(),
        to.wf(),
        all_paths(commit_views(commits@)).len() <= usize::MAX,
    ensures
        bucket_views(r.0@) == buckets_of(commit_views(commits@), from, to),
        r.1 == granularity(to.number() - from.number() + 1),
{
    let days: i64 = to.days_since(from) + 1;
    let gran = Granularity::pick(days);
    let ghost cv = commit_views(commits@);
    let mut keys: Vec<String> = Vec::new();
    let mut i: usize = 0;
    while i < commits.len()
        invariant
            i <= commits.len(),
            cv == commit_views(commits@),
            keys@.len() == i,
            forall|j: int| 0 <= j < i ==> (#[trigger] keys@[j])@ == commit_key(gran, cv[j]),
        decreases commits.len() - i,
    {
        keys.push(key_of(gran, &commits[i]));
        i += 1;
    }
    let mut out: Vec<Bucket> = Vec::new();
    let ghost want = buckets_of(cv, from, to);
    match gran {
        Granularity::Hour => {
            let mut hour: usize = 0;
            while hour < 24
                invariant
                    hour <= 24,
                    cv == commit_views(commits@),
                    keyed(cv, Granularity::Hour, keys@),
                    gran == Granularity::Hour,
                    all_paths(cv).len() <= usize::MAX,
                    want == buckets_of(cv, from, to),
                    granularity(to.number() - from.number() + 1) == Granularity::Hour,
                    out@.len() == hour,
                    forall|j: int| 0 <= j < hour ==> (#[trigger] out@[j])@ == want[j],
                decreases 24 - hour,
            {
                let key = text::zero_filled(hour as u64, 2);
                let name = text::count(hour);
                let label = text::join2(name.as_str(), "时");
                let b = make_bucket(commits, gran, &keys, key, label);
                assert(b@ == want[hour as int]);
                out.push(b);
                hour += 1;
            }
        },
        Granularity::Day => {
            let mut day = from;
            let mut n: i64 = 0;
            while n < days
                invariant
                    0 <= n <= days,
                    days == to.number() - from.number() + 1,
                    days <= 62,
                    from.wf(),
                    to.wf(),
                    day.wf(),
                    n < days ==> day.number() == from.number() + n,
                    cv == commit_views(commits@),
                    keyed(cv, Granularity::Day, keys@),
                    gran == Granularity::Day,
                    all_paths(cv).len() <= usize::MAX,
                    want == buckets_of(cv, from, to),
                    granularity(to.number() - from.number() + 1) == Granularity::Day,
                    out@.len() == n,
                    forall|j: int| 0 <= j < n ==> (#[trigger] out@[j])@ == want[j],
                decreases days - n,
            {
                let key = day.to_text();
                let month = text::zero_filled(day.month as u64, 2);
                let date = text::zero_filled(day.day as u64, 2);
                let mut label = month;
                label.push('-');
                label.append(date.as_str());
                proof {
                    date::lemma_number_injective(date::numbered(from.number() + n), day);
                    assert(label@ =~= text::padded(day.month as int, 2) + seq!['-'] + text::padded(
                        day.day as int,
                        2,
                    ));
                }
                let b = make_bucket(commits, gran, &keys, key, label);
                assert(b@ == want[n as int]);
                out.push(b);
                n += 1;
                if n < days {
                    proof {
                        date::lemma_number_range(to);
                        date::lemma_number_range(from);
                    }
                    day = day.moved(1);
                }
            }
        },
        Granularity::Month => {
            proof {
                date::lemma_order(from, to);
                date::lemma_order(to, from);
            }
            let one_year = from.year == to.year;
            let mut year = from.year;
            let mut month = from.month;
            let first: i64 = from.year as i64 * 12 + from.month as i64 - 1;
            let last: i64 = to.year as i64 * 12 + to.month as i64 - 1;
            let mut n: i64 = first;
            while n <= last
                invariant
                    first == from.month_number(),
                    last == to.month_number(),
                    first <= n <= last + 1,
                    from.wf(),
                    to.wf(),
                    one_year == (from.year == to.year),
                    1 <= month <= 12,
                    n == year * 12 + month - 1,
                    cv == commit_views(commits@),
                    keyed(cv, Granularity::Month, keys@),
                    gran == Granularity::Month,
                    all_paths(cv).len() <= usize::MAX,
                    want == buckets_of(cv, from, to),
                    granularity(to.number() - from.number() + 1) == Granularity::Month,
                    out@.len() == n - first,
                    forall|j: int| 0 <= j < n - first ==> (#[trigger] out@[j])@ == want[j],
                decreases last + 1 - n,
            {
                let mut key = year_in_key(year);
                key.push('-');
                let digits = text::zero_filled(month as u64, 2);
                key.append(digits.as_str());
                proof {
                    assert(n as int / 12 == year);
                    assert(n as int % 12 + 1 == month);
                    assert(key@ =~= month_key(n as int));
                }
                let label = if one_year {
                    let name = text::number(month as u64);
                    text::join2(name.as_str(), "月")
                } else {
                    key.clone()
                };
                let b = make_bucket(commits, gran, &keys, key, label);
                assert(b@ == want[n - first]);
                out.push(b);
                if month == 12 {
                    year += 1;
                    month = 1;
                } else {
                    month += 1;
                }
                n += 1;
            }
        },
    }
    assert(bucket_views(out@) =~= want);
    (out, gran)
}

// ---------------------------------------------------------------- months

/// Month `month` of `year` and the one after it are months of the calendar.
pub open spec fn month_fits(year: int, month: int) -> bool {
    date::FIRST_YEAR <= year <= date::LAST_YEAR && 1 <= month <= 12 && !(year == date::LAST_YEAR
        && month == 12)
}

/// Whether month `month` of `year` and the one after it are months of the calendar.
pub fn has_month(year: i32, month: u32) -> (r: bool)
    ensures
        r == month_fits(year as int, month as int),
{
    date::FIRST_YEAR <= year && year <= date::LAST_YEAR && 1 <= month && month <= 12 && !(year
        == date::LAST_YEAR && month == 12)
}

/// The first and the last day of a month.
pub open spec fn month_span(year: int, month: int) -> (Date, Date) {
    (
        Date { year: year as i32, month: month as u32, day: 1 },
        Date { year: year as i32, month: month as u32, day: date::month_len(year, month) as u32 },
    )
}

/// The first and the last day of a month.
pub fn month_bounds(year: i32, month: u32) -> (r: (Date, Date))
    requires
        month_fits(year as int, month as int),
    ensures
        r == month_span(year as int, month as int),
        r.0.wf(),
        r.1.wf(),
        r.1.number() == r.0.number() + date::month_len(year as int, month as int) - 1,
{
    let first = Date { year, month, day: 1 };
    let last = Date { year, month, day: date::length_of_month(year, month) };
    (first, last)
}

/// The place of a day in its week, Monday first.
pub open spec fn week_row(n: int) -> int {
    (n + 6) % 7
}

/// The days that a calendar page shows: six weeks, the first of them the one that holds the first
/// of the month, days of other months left out.
pub open spec fn page_days(year: int, month: int) -> Seq<Option<Date>> {
    let first = month_span(year, month).0.number();
    Seq::new(
        42,
        |i: int|
            {
                let k = i - week_row(first);
                if 0 <= k < date::month_len(year, month) {
                    Some(Date { year: year as i32, month: month as u32, day: (k + 1) as u32 })
                } else {
                    None
                }
            },
    )
}

/// The days that a calendar page shows. Always six weeks, so that the page does not jump from
/// month to month.
pub fn calendar_days(year: i32, month: u32) -> (r: Vec<Option<Date>>)
    requires
        month_fits(year as int, month as int),
    ensures
        r@ == page_days(year as int, month as int),
{
    let (first, last) = month_bounds(year, month);
    let lead = first.since_monday();
    let len: u32 = last.day;
    let mut out: Vec<Option<Date>> = Vec::new();
    let mut i: usize = 0;
    while i < 42
        invariant
            i <= 42,
            first == month_span(year as int, month as int).0,
            lead == week_row(first.number()),
            lead < 7,
            len == date::month_len(year as int, month as int),
            out@.len() == i,
            forall|j: int|
                0 <= j < i ==> (#[trigger] out@[j]) == page_days(year as int, month as int)[j],
        decreases 42 - i,
    {
        let day = if i >= lead && i - lead < len as usize {
            Some(Date { year, month, day: (i - lead + 1) as u32 })
        } else {
            None
        };
        assert(day == page_days(year as int, month as int)[i as int]);
        out.push(day);
        i += 1;
    }
    assert(out@ =~= page_days(year as int, month as int));
    out
}

/// Where a day stands on the calendar page of its month.
pub open spec fn place_on_page(year: int, month: int, day: int) -> int {
    week_row(month_span(year, month).0.number()) + day - 1
}

/// The first column of a calendar page holds Mondays, and a page shows every day of its month once
/// and in order.
pub proof fn law_calendar_page(year: int, month: int)
    requires
        month_fits(year, month),
    ensures
        page_days(year, month).len() == 42,
        forall|i: int|
            0 <= i < 42 ==> (#[trigger] page_days(year, month)[i] matches Some(d) ==> d.wf()
                && d.year == year && d.month == month && week_row(d.number()) == i % 7),
        forall|day: int|
            1 <= day <= date::month_len(year, month) ==> page_days(
                year,
                month,
            )[#[trigger] place_on_page(year, month, day)] == Some(
                Date { year: year as i32, month: month as u32, day: day as u32 },
            ),
{
    let first = month_span(year, month).0;
    assert forall|i: int| 0 <= i < 42 implies (#[trigger] page_days(year, month)[i] matches Some(d)
        ==> d.wf() && d.year == year && d.month == month && week_row(d.number()) == i % 7) by {
        let lead = week_row(first.number());
        let k = i - lead;
        if 0 <= k < date::month_len(year, month) {
            let d = Date { year: year as i32, month: month as u32, day: (k + 1) as u32 };
            assert(d.number() == first.number() + k);
            assert(week_row(d.number()) == i % 7) by {
                let n = first.number();
                assert(week_row(n + i - (n + 6) % 7) == i % 7);
            }
        }
    }
}

/// The first of the month `delta` months after that of `month`.
pub open spec fn month_after(month: Date, delta: int) -> Date {
    let n = month.month_number() + delta;
    Date { year: (n / 12) as i32, month: (n % 12 + 1) as u32, day: 1 }
}

/// The first of the month `delta` months later.
pub fn shift_month(month: Date, delta: i32) -> (r: Date)
    requires
        month.wf(),
        month_fits((month.month_number() + delta) / 12, (month.month_number() + delta) % 12 + 1),
    ensures
        r == month_after(month, delta as int),
        r.wf(),
{
    let n: i64 = month.year as i64 * 12 + month.month as i64 - 1 + delta as i64;
    // Shifted by whole years, so that nothing divided is negative.
    let up: i64 = n + 12 * 300_000;
    let year: i64 = up / 12 - 300_000;
    let m: i64 = up % 12 + 1;
    proof {
        assert(year == n as int / 12);
        assert(m == n as int % 12 + 1);
    }
    month_bounds(year as i32, m as u32).0
}

/// The first of the month `delta` months later, where the calendar holds it; else `month` itself.
pub fn turn_page(month: Date, delta: i32) -> (r: Date)
    requires
        month.wf(),
    ensures
        ({
            let n = month.month_number() + delta;
            r == if month_fits(n / 12, n % 12 + 1) {
                month_after(month, delta as int)
            } else {
                month
            }
        }),
        r.wf(),
{
    let n: i64 = month.year as i64 * 12 + month.month as i64 - 1 + delta as i64;
    // The months that fit, counted from the first of year 0.
    let first: i64 = date::FIRST_YEAR as i64 * 12;
    let last: i64 = date::LAST_YEAR as i64 * 12 + 10;
    if first <= n && n <= last {
        shift_month(month, delta)
    } else {
        month
    }
}

/// The first day of the month of `day`, where the calendar holds the month after it; else `day`.
pub fn page_of(day: Date) -> (r: Date)
    requires
        day.wf(),
    ensures
        r == if month_fits(day.year as int, day.month as int) {
            Date { day: 1, ..day }
        } else {
            day
        },
        r.wf(),
{
    if has_month(day.year, day.month) {
        month_bounds(day.year, day.month).0
    } else {
        day
    }
}

/// A month forth and a month back leads to the first of the same month.
pub proof fn law_month_forth_and_back(month: Date, delta: int)
    requires
        month.wf(),
        month_fits((month.month_number() + delta) / 12, (month.month_number() + delta) % 12 + 1),
    ensures
        month_after(month_after(month, delta), -delta) == (Date { day: 1, ..month }),
{
}

/// What days a calendar lets pick.
#[derive(Clone, Copy, Debug, PartialEq, Eq, Structural)]
pub struct DayLimits {
    pub from: Option<Date>,
    pub to: Option<Date>,
}

impl Default for DayLimits {
    fn default() -> (r: DayLimits)
        ensures
            r == (DayLimits { from: None, to: None }),
    {
        DayLimits { from: None, to: None }
    }
}

impl DayLimits {
    /// The limits are dates.
    pub open spec fn wf(self) -> bool {
        &&& self.from matches Some(d) ==> d.wf()
        &&& self.to matches Some(d) ==> d.wf()
    }

    /// Whether `day` can be picked.
    pub fn allows(self, day: Date) -> (r: bool)
        requires
            self.wf(),
            day.wf(),
        ensures
            r == ((self.from matches Some(d) ==> d.number() <= day.number()) && (self.to matches Some(
                d,
            ) ==> day.number() <= d.number())),
    {
        let late_enough = match self.from {
            Some(from) => !day.is_before(from),
            None => true,
        };
        let early_enough = match self.to {
            Some(to) => !to.is_before(day),
            None => true,
        };
        late_enough && early_enough
    }
}

// ---------------------------------------------------------------- from a bucket to its days

/// The year and the month in a bucket's key.
pub open spec fn month_in(key: Seq<char>) -> Option<(int, int)> {
    let i = text::index_of(key, '-');
    if i >= key.len() {
        None
    } else {
        match (text::integer_in(key.subrange(0, i)), text::integer_in(text::after(key, i + 1))) {
            (Some(y), Some(m)) => if i32::MIN <= y <= i32::MAX && 0 <= m <= u32::MAX && text::after(
                key,
                i + 1,
            )[0] != '-' {
                Some((y, m))
            } else {
                None
            },
            _ => None,
        }
    }
}

/// The days that a bucket covers.
pub open spec fn span_of_bucket(
    gran: Granularity,
    key: Seq<char>,
    page_span: Option<(Date, Date)>,
) -> Option<(Date, Date)> {
    match gran {
        Granularity::Hour => page_span,
        Granularity::Day => match date::date_in(key) {
            Some(d) => Some((d, d)),
            None => None,
        },
        Granularity::Month => match month_in(key) {
            Some(p) => Some(month_span(p.0, p.1)),
            None => None,
        },
    }
}

/// The year and the month in a bucket's key.
fn month_of_key(key: &str) -> (r: Option<(i32, u32)>)
    ensures
        match r {
            Some(p) => month_in(key@) == Some((p.0 as int, p.1 as int)),
            None => month_in(key@) is None,
        },
{
    let s = text::chars_of(key);
    let i = text::find_char(&s, '-', 0);
    assert(text::after(s@, 0) =~= s@);
    if i == s.len() {
        return None;
    }
    let head = text::string_from(&s, 0, i);
    let tail = text::string_from(&s, i + 1, s.len());
    let year = match text::parse_integer(head.as_str(), i32::MIN as i64, i32::MAX as i64) {
        Some(y) => y,
        None => {
            return None;
        },
    };
    let month = match text::parse_integer(tail.as_str(), 0, u32::MAX as i64) {
        Some(m) => m,
        None => {
            return None;
        },
    };
    if s.len() == i + 1 || s[i + 1] == '-' {
        return None;
    }
    assert(tail@[0] == s@[i + 1]);
    Some((year as i32, month as u32))
}

/// The days that the bucket called `key` covers. Buckets of hours only occur where the page covers
/// a single day.
pub fn bucket_span(gran: Granularity, key: &str, page_span: Option<(Date, Date)>) -> (r: Option<
    (Date, Date),
>)
    requires
        gran == Granularity::Month ==> (month_in(key@) matches Some(p) ==> month_fits(p.0, p.1)),
    ensures
        r == span_of_bucket(gran, key@, page_span),
{
    match gran {
        Granularity::Hour => page_span,
        Granularity::Day => match parse_date(key) {
            Some(day) => Some((day, day)),
            None => None,
        },
        Granularity::Month => match month_of_key(key) {
            Some((year, month)) => Some(month_bounds(year, month)),
            None => None,
        },
    }
}

/// The days that a click on the bucket called `key` leads to: those that it covers, where the
/// calendar holds them.
pub open spec fn days_reached(
    gran: Granularity,
    key: Seq<char>,
    page_span: Option<(Date, Date)>,
) -> Option<(Date, Date)> {
    if gran == Granularity::Month && !(month_in(key) matches Some(p) && month_fits(p.0, p.1)) {
        None
    } else {
        span_of_bucket(gran, key, page_span)
    }
}

/// The days that a click on the bucket called `key` leads to.
pub fn reach_days(gran: Granularity, key: &str, page_span: Option<(Date, Date)>) -> (r: Option<
    (Date, Date),
>)
    ensures
        r == days_reached(gran, key@, page_span),
        gran == Granularity::Day ==> forall|d: Date|
            d.wf() && 0 <= d.year <= 9999 && key@ == #[trigger] date::date_text(d) ==> r == Some(
                (d, d),
            ),
{
    match gran {
        Granularity::Hour => page_span,
        Granularity::Day => match parse_date(key) {
            Some(day) => Some((day, day)),
            None => None,
        },
        Granularity::Month => {
            if let Some((year, month)) = month_of_key(key) {
                if !has_month(year, month) {
                    return None;
                }
            }
            bucket_span(gran, key, page_span)
        },
    }
}

/// A click on a bucket leads to the days that it covers: on an hour to the one day that the charts
/// then cover, on a month to the days of that month.
pub proof fn law_clicks_lead_to_the_days_of_the_bucket(
    commits: Seq<CommitView>,
    from: Date,
    to: Date,
    i: int,
)
    requires
        from.wf(),
        to.wf(),
        from.number() <= to.number(),
        0 <= i < buckets_of(commits, from, to).len(),
    ensures
        ({
            let gran = granularity(to.number() - from.number() + 1);
            let r = days_reached(gran, buckets_of(commits, from, to)[i].key, Some((from, to)));
            let n = from.month_number() + i;
            &&& gran == Granularity::Hour ==> from == to && r == Some((from, from))
            &&& gran == Granularity::Month && n >= 0 && month_fits(n / 12, n % 12 + 1) ==> r
                == Some(month_span(n / 12, n % 12 + 1))
        }),
{
    let gran = granularity(to.number() - from.number() + 1);
    let n = from.month_number() + i;
    if gran == Granularity::Hour {
        date::lemma_number_injective(from, to);
    }
    if gran == Granularity::Month && n >= 0 && month_fits(n / 12, n % 12 + 1) {
        lemma_month_in_key(n);
    }
}

proof fn lemma_month_in_key(n: int)
    requires
        0 <= n,
        n / 12 <= i32::MAX,
    ensures
        month_in(month_key(n)) == Some((n / 12, n % 12 + 1)),
{
    let key = month_key(n);
    let year = text::padded(n / 12, 4);
    let month = text::padded(n % 12 + 1, 2);
    text::lemma_padded_value(n / 12, 4);
    text::lemma_padded_value(n % 12 + 1, 2);
    assert forall|j: int| 0 <= j < year.len() implies #[trigger] key[j] != '-' by {
        assert(key[j] == year[j]);
    }
    text::lemma_index_of_is(key, '-', year.len() as int);
    assert(key.subrange(0, year.len() as int) =~= year);
    assert(text::after(key, year.len() as int + 1) =~= month);
    assert('0' <= year[0] <= '9');
    assert('0' <= month[0] <= '9');
}

// ---------------------------------------------------------------- heat maps

/// What a cell of a heat map covers.
#[derive(Clone, Copy, Debug, PartialEq, Eq, Structural)]
pub enum HeatMode {
    Day,
    Month,
}

impl Default for HeatMode {
    fn default() -> (r: HeatMode)
        ensures
            r == HeatMode::Day,
    {
        HeatMode::Day
    }
}

/// A cell of a heat map, with the days that it covers.
#[derive(Debug)]
pub struct HeatCell {
    pub col: usize,
    pub row: usize,
    pub files: usize,
    pub revs: usize,
    pub title: String,
    pub from: Date,
    pub to: Date,
}

/// The view of a `HeatCell`.
pub struct CellView {
    pub col: int,
    pub row: int,
    pub files: int,
    pub revs: int,
    pub title: Seq<char>,
    pub from: Date,
    pub to: Date,
}

impl View for HeatCell {
    type V = CellView;

    open spec fn view(&self) -> CellView {
        CellView {
            col: self.col as int,
            row: self.row as int,
            files: self.files as int,
            revs: self.revs as int,
            title: self.title@,
            from: self.from,
            to: self.to,
        }
    }
}

impl Clone for HeatCell {
    fn clone(&self) -> (r: HeatCell)
        ensures
            r == *self,
    {
        HeatCell {
            col: self.col,
            row: self.row,
            files: self.files,
            revs: self.revs,
            title: self.title.clone(),
            from: self.from,
            to: self.to,
        }
    }
}

/// The views of the cells in `v`.
pub open spec fn cell_views(v: Seq<HeatCell>) -> Seq<CellView> {
    Seq::new(v.len(), |i: int| v[i]@)
}

/// The views of labels and their places.
pub open spec fn label_views(v: Seq<(usize, String)>) -> Seq<(int, Seq<char>)> {
    Seq::new(v.len(), |i: int| (v[i].0 as int, v[i].1@))
}

/// A heat map.
#[derive(Debug)]
pub struct Heat {
    pub mode: HeatMode,
    pub cols: usize,
    pub rows: usize,
    pub cells: Vec<HeatCell>,
    pub col_labels: Vec<(usize, String)>,
    pub row_labels: Vec<(usize, String)>,
    pub max: usize,
}

/// The view of a `Heat`.
pub struct HeatView {
    pub mode: HeatMode,
    pub cols: int,
    pub rows: int,
    pub cells: Seq<CellView>,
    pub col_labels: Seq<(int, Seq<char>)>,
    pub row_labels: Seq<(int, Seq<char>)>,
    pub max: int,
}

impl View for Heat {
    type V = HeatView;

    open spec fn view(&self) -> HeatView {
        HeatView {
            mode: self.mode,
            cols: self.cols as int,
            rows: self.rows as int,
            cells: cell_views(self.cells@),
            col_labels: label_views(self.col_labels@),
            row_labels: label_views(self.row_labels@),
            max: self.max as int,
        }
    }
}

/// The most paths in one of the first `n` cells.
pub open spec fn most_files(cells: Seq<CellView>, n: int) -> int
    decreases n,
{
    if n <= 0 {
        0
    } else if cells[n - 1].files > most_files(cells, n - 1) {
        cells[n - 1].files
    } else {
        most_files(cells, n - 1)
    }
}

/// The cell of the `i`th day from `from` on: weeks are columns, and the first column is the week of
/// `from`.
pub open spec fn day_cell(commits: Seq<CommitView>, from: Date, i: int) -> CellView {
    let place = week_row(from.number()) + i;
    let d = date::numbered(from.number() + i);
    let t = tally(commits, |c: CommitView| c.day == d);
    CellView {
        col: place / 7,
        row: place % 7,
        files: t.0,
        revs: t.1,
        title: date::date_text(d),
        from: d,
        to: d,
    }
}

/// The month in which column `col` begins.
pub open spec fn col_month(from: Date, col: int) -> int {
    date::numbered(from.number() - week_row(from.number()) + 7 * col).month as int
}

/// The labels of the first `n` columns: a column is labelled where it begins in another month than
/// the one before it.
pub open spec fn month_marks(from: Date, n: int) -> Seq<(int, Seq<char>)>
    decreases n,
{
    if n <= 0 {
        Seq::empty()
    } else if n == 1 || col_month(from, n - 1) != col_month(from, n - 2) {
        month_marks(from, n - 1).push((n - 1, text::decimal(col_month(from, n - 1)) + "月"@))
    } else {
        month_marks(from, n - 1)
    }
}

/// The heat map of the days from `from` to `to`.
pub open spec fn day_map(commits: Seq<CommitView>, from: Date, to: Date) -> HeatView {
    let days = to.number() - from.number() + 1;
    let cells = Seq::new(days as nat, |i: int| day_cell(commits, from, i));
    let cols = (week_row(from.number()) + days + 6) / 7;
    HeatView {
        mode: HeatMode::Day,
        cols,
        rows: 7,
        cells,
        col_labels: month_marks(from, cols),
        row_labels: seq![(0, "一"@), (2, "三"@), (4, "五"@)],
        max: most_files(cells, cells.len() as int),
    }
}

/// The cell of the `i`th month from that of `from` on: years are columns. The days are those of the
/// month that lie between `from` and `to`.
pub open spec fn month_cell(commits: Seq<CommitView>, from: Date, to: Date, i: int) -> CellView {
    let n = from.month_number() + i;
    let span = month_span(n / 12, n % 12 + 1);
    let t = tally(commits, |c: CommitView| c.day.month_number() == n);
    CellView {
        col: n / 12 - from.year,
        row: n % 12,
        files: t.0,
        revs: t.1,
        title: text::signed(n / 12) + "年"@ + text::decimal(n % 12 + 1) + "月"@,
        from: if span.0.number() < from.number() {
            from
        } else {
            span.0
        },
        to: if to.number() < span.1.number() {
            to
        } else {
            span.1
        },
    }
}

/// The heat map of the months from that of `from` to that of `to`.
pub open spec fn month_map(commits: Seq<CommitView>, from: Date, to: Date) -> HeatView {
    let cells = Seq::new(
        (to.month_number() - from.month_number() + 1) as nat,
        |i: int| month_cell(commits, from, to, i),
    );
    HeatView {
        mode: HeatMode::Month,
        cols: to.year - from.year + 1,
        rows: 12,
        cells,
        col_labels: Seq::new(
            (to.year - from.year + 1) as nat,
            |c: int| (c, text::signed(from.year + c)),
        ),
        row_labels: Seq::new(12, |m: int| (m, text::decimal(m + 1) + "月"@)),
        max: most_files(cells, cells.len() as int),
    }
}

/// The calendar holds every day that the heat map from `from` to `to` reaches: the whole of its
/// first and last week where cells are days, the whole of its last month where they are months.
pub open spec fn heat_fits(from: Date, to: Date) -> bool {
    if to.number() - from.number() + 1 <= HEATMAP_DAY_LIMIT {
        &&& date::first_number() <= from.number() - week_row(from.number())
        &&& to.number() + 6 - week_row(to.number()) <= date::last_number()
    } else {
        month_fits(to.year as int, to.month as int)
    }
}

/// The heat map from `from` to `to`: days as long as there are not too many of them, else months.
pub open spec fn heat_of(commits: Seq<CommitView>, from: Date, to: Date) -> HeatView {
    if to.number() - from.number() + 1 <= HEATMAP_DAY_LIMIT {
        day_map(commits, from, to)
    } else {
        month_map(commits, from, to)
    }
}

fn tally_day(commits: &Vec<Commit>, d: Date) -> (r: (usize, usize))
    requires
        all_paths(commit_views(commits@)).len() <= usize::MAX,
    ensures
        (r.0 as int, r.1 as int) == tally(
            commit_views(commits@),
            |c: CommitView| c.day == d,
        ),
{
    let ghost cv = commit_views(commits@);
    let ghost here = |c: CommitView| c.day == d;
    let mut files: usize = 0;
    let mut revs: usize = 0;
    let mut i: usize = 0;
    assert(cv.take(0) =~= Seq::empty());
    while i < commits.len()
        invariant
            i <= commits.len(),
            cv == commit_views(commits@),
            all_paths(cv).len() <= usize::MAX,
            here == (|c: CommitView| c.day == d),
            files == tally(cv.take(i as int), here).0,
            revs == tally(cv.take(i as int), here).1,
            revs <= i,
        decreases commits.len() - i,
    {
        proof {
            lemma_tally_step(cv, here, i as int);
            lemma_tally_bounds(cv.take(i + 1), here);
            assert(cv[i as int].paths.len() == commits@[i as int].paths@.len());
        }
        if commits[i].day == d {
            files += commits[i].paths.len();
            revs += 1;
        }
        i += 1;
    }
    assert(cv.take(i as int) =~= cv);
    (files, revs)
}

fn tally_month(commits: &Vec<Commit>, n: i64) -> (r: (usize, usize))
    requires
        all_paths(commit_views(commits@)).len() <= usize::MAX,
        commits_wf(commit_views(commits@)),
    ensures
        (r.0 as int, r.1 as int) == tally(
            commit_views(commits@),
            |c: CommitView| c.day.month_number() == n,
        ),
{
    let ghost cv = commit_views(commits@);
    let ghost here = |c: CommitView| c.day.month_number() == n;
    let mut files: usize = 0;
    let mut revs: usize = 0;
    let mut i: usize = 0;
    assert(cv.take(0) =~= Seq::empty());
    while i < commits.len()
        invariant
            i <= commits.len(),
            cv == commit_views(commits@),
            commits_wf(cv),
            all_paths(cv).len() <= usize::MAX,
            here == (|c: CommitView| c.day.month_number() == n),
            files == tally(cv.take(i as int), here).0,
            revs == tally(cv.take(i as int), here).1,
            revs <= i,
        decreases commits.len() - i,
    {
        proof {
            lemma_tally_step(cv, here, i as int);
            lemma_tally_bounds(cv.take(i + 1), here);
            assert(cv[i as int].day.wf());
            assert(cv[i as int].paths.len() == commits@[i as int].paths@.len());
        }
        let day = commits[i].day;
        if day.year as i64 * 12 + day.month as i64 - 1 == n {
            files += commits[i].paths.len();
            revs += 1;
        }
        i += 1;
    }
    assert(cv.take(i as int) =~= cv);
    (files, revs)
}

fn most(cells: &Vec<HeatCell>) -> (r: usize)
    ensures
        r == most_files(cell_views(cells@), cells@.len() as int),
{
    let ghost cv = cell_views(cells@);
    let mut r: usize = 0;
    let mut i: usize = 0;
    while i < cells.len()
        invariant
            i <= cells.len(),
            cv == cell_views(cells@),
            r == most_files(cv, i as int),
        decreases cells.len() - i,
    {
        if cells[i].files > r {
            r = cells[i].files;
        }
        i += 1;
    }
    r
}

fn day_cells(commits: &Vec<Commit>, from: Date, days: i64) -> (r: Vec<HeatCell>)
    requires
        from.wf(),
        0 < days <= HEATMAP_DAY_LIMIT,
        from.number() + days - 1 <= date::last_number(),
        all_paths(commit_views(commits@)).len() <= usize::MAX,
    ensures
        cell_views(r@) == Seq::new(
            days as nat,
            |i: int| day_cell(commit_views(commits@), from, i),
        ),
{
    let ghost cv = commit_views(commits@);
    let lead = from.since_monday();
    let mut out: Vec<HeatCell> = Vec::new();
    let mut day = from;
    let mut n: usize = 0;
    while n < days as usize
        invariant
            0 <= n <= days <= HEATMAP_DAY_LIMIT,
            from.wf(),
            day.wf(),
            from.number() + days - 1 <= date::last_number(),
            n < days ==> day.number() == from.number() + n,
            lead == week_row(from.number()),
            lead < 7,
            cv == commit_views(commits@),
            all_paths(cv).len() <= usize::MAX,
            out@.len() == n,
            forall|j: int| 0 <= j < n ==> (#[trigger] out@[j])@ == day_cell(cv, from, j),
        decreases days - n,
    {
        proof {
            date::lemma_number_injective(date::numbered(from.number() + n), day);
        }
        let (files, revs) = tally_day(commits, day);
        let cell = HeatCell {
            col: (lead + n) / 7,
            row: (lead + n) % 7,
            files,
            revs,
            title: day.to_text(),
            from: day,
            to: day,
        };
        assert(cell@ == day_cell(cv, from, n as int));
        out.push(cell);
        n += 1;
        if n < days as usize {
            proof {
                date::lemma_number_range(from);
            }
            day = day.moved(1);
        }
    }
    assert(cell_views(out@) =~= Seq::new(days as nat, |i: int| day_cell(cv, from, i)));
    out
}

fn month_labels(from: Date, cols: usize) -> (r: Vec<(usize, String)>)
    requires
        from.wf(),
        cols <= 100,
        date::first_number() <= from.number() - week_row(from.number()),
        from.number() - week_row(from.number()) + 7 * (cols - 1) <= date::last_number(),
    ensures
        label_views(r@) == month_marks(from, cols as int),
{
    let lead = from.since_monday();
    let mut out: Vec<(usize, String)> = Vec::new();
    let mut last: u32 = 0;
    let mut col: usize = 0;
    assert(label_views(out@) =~= Seq::empty());
    while col < cols
        invariant
            col <= cols <= 100,
            from.wf(),
            lead == week_row(from.number()),
            date::first_number() <= from.number() - lead,
            from.number() - lead + 7 * (cols - 1) <= date::last_number(),
            col == 0 ==> last == 0,
            col > 0 ==> last == col_month(from, col - 1),
            label_views(out@) == month_marks(from, col as int),
        decreases cols - col,
    {
        let head = from.moved(7 * col as i64 - lead as i64);
        proof {
            date::lemma_number_injective(
                date::numbered(from.number() - week_row(from.number()) + 7 * col),
                head,
            );
        }
        if head.month != last {
            last = head.month;
            let ghost before = out@;
            let name = text::number(last as u64);
            let label = text::join2(name.as_str(), "月");
            out.push((col, label));
            assert(label_views(out@) =~= label_views(before).push((col as int, label@)));
        }
        col += 1;
    }
    out
}

fn day_heat(commits: &Vec<Commit>, from: Date, to: Date) -> (r: Heat)
    requires
        from.wf(),
        to.wf(),
        from.number() <= to.number(),
        to.number() - from.number() + 1 <= HEATMAP_DAY_LIMIT,
        heat_fits(from, to),
        all_paths(commit_views(commits@)).len() <= usize::MAX,
    ensures
        r@ == day_map(commit_views(commits@), from, to),
{
    let days: i64 = to.days_since(from) + 1;
    let lead = from.since_monday();
    let cols: usize = (lead + days as usize + 6) / 7;
    let cells = day_cells(commits, from, days);
    let max = most(&cells);
    let col_labels = month_labels(from, cols);
    let mut row_labels: Vec<(usize, String)> = Vec::new();
    row_labels.push((0, "一".to_owned()));
    row_labels.push((2, "三".to_owned()));
    row_labels.push((4, "五".to_owned()));
    assert(label_views(row_labels@) =~= seq![(0, "一"@), (2, "三"@), (4, "五"@)]);
    Heat { mode: HeatMode::Day, cols, rows: 7, cells, col_labels, row_labels, max }
}

fn month_cells(commits: &Vec<Commit>, from: Date, to: Date) -> (r: Vec<HeatCell>)
    requires
        from.wf(),
        to.wf(),
        from.number() <= to.number(),
        month_fits(to.year as int, to.month as int),
        commits_wf(commit_views(commits@)),
        all_paths(commit_views(commits@)).len() <= usize::MAX,
    ensures
        cell_views(r@) == Seq::new(
            (to.month_number() - from.month_number() + 1) as nat,
            |i: int| month_cell(commit_views(commits@), from, to, i),
        ),
{
    let ghost cv = commit_views(commits@);
    proof {
        date::lemma_order(from, to);
        date::lemma_order(to, from);
    }
    let first: i64 = from.year as i64 * 12 + from.month as i64 - 1;
    let last: i64 = to.year as i64 * 12 + to.month as i64 - 1;
    let mut out: Vec<HeatCell> = Vec::new();
    let mut year = from.year;
    let mut month = from.month;
    let mut n: i64 = first;
    while n <= last
        invariant
            first == from.month_number(),
            last == to.month_number(),
            first <= n <= last + 1,
            from.wf(),
            to.wf(),
            month_fits(to.year as int, to.month as int),
            1 <= month <= 12,
            n == year * 12 + month - 1,
            cv == commit_views(commits@),
            commits_wf(cv),
            all_paths(cv).len() <= usize::MAX,
            out@.len() == n - first,
            forall|j: int|
                0 <= j < n - first ==> (#[trigger] out@[j])@ == month_cell(cv, from, to, j),
        decreases last + 1 - n,
    {
        proof {
            assert(n as int / 12 == year);
            assert(n as int % 12 + 1 == month);
        }
        let (files, revs) = tally_month(commits, n);
        let (start, end) = month_bounds(year, month);
        let name = text::integer(year as i64);
        let digits = text::number(month as u64);
        let mut title = text::join2(name.as_str(), "年");
        title.append(digits.as_str());
        title.append("月");
        let cell = HeatCell {
            col: (year - from.year) as usize,
            row: (month - 1) as usize,
            files,
            revs,
            title,
            from: if start.is_before(from) {
                from
            } else {
                start
            },
            to: if to.is_before(end) {
                to
            } else {
                end
            },
        };
        assert(cell@ == month_cell(cv, from, to, n - first));
        out.push(cell);
        if month == 12 {
            year += 1;
            month = 1;
        } else {
            month += 1;
        }
        n += 1;
    }
    assert(cell_views(out@) =~= Seq::new(
        (to.month_number() - from.month_number() + 1) as nat,
        |i: int| month_cell(cv, from, to, i),
    ));
    out
}

fn month_heat(commits: &Vec<Commit>, from: Date, to: Date) -> (r: Heat)
    requires
        from.wf(),
        to.wf(),
        from.number() <= to.number(),
        month_fits(to.year as int, to.month as int),
        commits_wf(commit_views(commits@)),
        all_paths(commit_views(commits@)).len() <= usize::MAX,
    ensures
        r@ == month_map(commit_views(commits@), from, to),
{
    proof {
        date::lemma_order(to, from);
    }
    let cells = month_cells(commits, from, to);
    let max = most(&cells);
    let cols: usize = (to.year - from.year + 1) as usize;
    let mut col_labels: Vec<(usize, String)> = Vec::new();
    let mut c: usize = 0;
    while c < cols
        invariant
            c <= cols,
            cols == to.year - from.year + 1,
            from.wf(),
            to.wf(),
            col_labels@.len() == c,
            forall|j: int|
                0 <= j < c ==> (#[trigger] col_labels@[j]).0 == j && col_labels@[j].1@
                    == text::signed(from.year + j),
        decreases cols - c,
    {
        let name = text::integer(from.year as i64 + c as i64);
        col_labels.push((c, name));
        c += 1;
    }
    let mut row_labels: Vec<(usize, String)> = Vec::new();
    let mut m: usize = 0;
    while m < 12
        invariant
            m <= 12,
            row_labels@.len() == m,
            forall|j: int|
                0 <= j < m ==> (#[trigger] row_labels@[j]).0 == j && row_labels@[j].1@
                    == text::decimal(j + 1) + "月"@,
        decreases 12 - m,
    {
        let name = text::count(m + 1);
        let label = text::join2(name.as_str(), "月");
        row_labels.push((m, label));
        m += 1;
    }
    let r = Heat { mode: HeatMode::Month, cols, rows: 12, cells, col_labels, row_labels, max };
    assert(r@.col_labels =~= month_map(commit_views(commits@), from, to).col_labels);
    assert(r@.row_labels =~= month_map(commit_views(commits@), from, to).row_labels);
    r
}

/// The heat map of the commits from `from` to `to`. A day or month without a commit has a cell too,
/// so that the pointer finds something there.
pub fn build_heat(commits: &Vec<Commit>, from: Date, to: Date) -> (r: Heat)
    requires
        from.wf(),
        to.wf(),
        from.number() <= to.number(),
        heat_fits(from, to),
        commits_wf(commit_views(commits@)),
        all_paths(commit_views(commits@)).len() <= usize::MAX,
    ensures
        r@ == heat_of(commit_views(commits@), from, to),
{
    let days: i64 = to.days_since(from) + 1;
    if days <= HEATMAP_DAY_LIMIT {
        day_heat(commits, from, to)
    } else {
        month_heat(commits, from, to)
    }
}

// ---------------------------------------------------------------- the axis

/// Ten to the power `k`.
pub open spec fn power_of_ten(k: nat) -> int
    decreases k,
{
    if k == 0 {
        1
    } else {
        10 * power_of_ten((k - 1) as nat)
    }
}

/// `s` is one, two or five times the `k`th power of ten.
pub open spec fn step_of(s: int, k: nat) -> bool {
    s == power_of_ten(k) || s == 2 * power_of_ten(k) || s == 5 * power_of_ten(k)
}

/// `s` is a round step of an axis: one, two or five times one of the first twelve powers of ten.
pub open spec fn round_step(s: int) -> bool {
    exists|k: nat| k < 12 && #[trigger] step_of(s, k)
}

/// `r` is the step of an axis of four steps that reaches `target`: the least round one, or a plain
/// quarter where no round one is large enough.
pub open spec fn axis_step(target: int, r: int) -> bool {
    if target <= 20 * power_of_ten(11) {
        round_step(r) && 4 * r >= target && forall|s: int|
            #[trigger] round_step(s) && 4 * s >= target ==> r <= s
    } else {
        r == (target + 3) / 4
    }
}

proof fn lemma_powers_grow(a: nat, b: nat)
    requires
        a < b,
    ensures
        10 * power_of_ten(a) <= power_of_ten(b),
        power_of_ten(a) >= 1,
    decreases b,
{
    lemma_power_positive(a);
    if a + 1 < b {
        lemma_powers_grow(a, (b - 1) as nat);
        lemma_power_positive((b - 1) as nat);
    }
}

proof fn lemma_power_positive(a: nat)
    ensures
        power_of_ten(a) >= 1,
    decreases a,
{
    if a > 0 {
        lemma_power_positive((a - 1) as nat);
    }
}

proof fn lemma_least_step(target: int, k: nat, r: int)
    requires
        k < 12,
        step_of(r, k),
        4 * r >= target,
        k > 0 ==> 2 * power_of_ten(k) < target,
        r == 2 * power_of_ten(k) ==> 4 * power_of_ten(k) < target,
        r == 5 * power_of_ten(k) ==> 8 * power_of_ten(k) < target,
    ensures
        axis_step(target, r),
{
    lemma_power_positive(k);
    assert(round_step(r));
    assert(target <= 20 * power_of_ten(11)) by {
        if k < 11 {
            lemma_powers_grow(k, 11);
        }
    }
    assert forall|s: int| #[trigger] round_step(s) && 4 * s >= target implies r <= s by {
        let j = choose|j: nat| j < 12 && #[trigger] step_of(s, j);
        lemma_power_positive(j);
        if j < k {
            lemma_powers_grow(j, k);
        } else if j > k {
            lemma_powers_grow(k, j);
        }
    }
}

/// The step of an axis of four steps that reaches `max`, rounded so that its marks are round
/// numbers.
pub fn y_step(max: usize) -> (r: usize)
    ensures
        axis_step(if max > 1 { max as int } else { 1 }, r as int),
        4 * r >= max,
        r >= 1,
{
    let target: u64 = if max > 1 {
        max as u64
    } else {
        1
    };
    let mut power: u64 = 1;
    let mut k: u32 = 0;
    proof {
        reveal_with_fuel(power_of_ten, 13);
    }
    assert(power_of_ten(11) == 100_000_000_000);
    while k < 12
        invariant
            k <= 12,
            power == power_of_ten(k as nat),
            power_of_ten(11) == 100_000_000_000,
            target == (if max > 1 { max as int } else { 1 }),
            k > 0 ==> 2 * power < target,
            1 <= power <= 1_000_000_000_000,
            k < 12 ==> power <= 100_000_000_000,
        decreases 12 - k,
    {
        if power * 4 >= target {
            proof {
                lemma_least_step(target as int, k as nat, power as int);
            }
            return power as usize;
        }
        if 2 * power * 4 >= target {
            proof {
                lemma_least_step(target as int, k as nat, 2 * power);
            }
            return (2 * power) as usize;
        }
        if 5 * power * 4 >= target {
            proof {
                lemma_least_step(target as int, k as nat, 5 * power);
            }
            return (5 * power) as usize;
        }
        proof {
            if k < 11 {
                lemma_powers_at_most(k as nat);
            }
        }
        power = power * 10;
        k += 1;
    }
    let quarter: u64 = target / 4 + (if target % 4 == 0 {
        0
    } else {
        1
    });
    quarter as usize
}

proof fn lemma_powers_at_most(k: nat)
    requires
        k < 11,
    ensures
        power_of_ten(k) <= 10_000_000_000,
{
    reveal_with_fuel(power_of_ten, 13);
    lemma_powers_grow(k, 11);
}

// ---------------------------------------------------------------- laws of counting

/// The paths and the commits in the first `n` of the places that `place` gives.
spec fn spread(commits: Seq<CommitView>, place: spec_fn(CommitView) -> int, n: int) -> (int, int)
    decreases n,
{
    if n <= 0 {
        (0, 0)
    } else {
        let before = spread(commits, place, n - 1);
        let t = tally(commits, |c: CommitView| place(c) == n - 1);
        (before.0 + t.0, before.1 + t.1)
    }
}

proof fn lemma_tally_same(
    commits: Seq<CommitView>,
    a: spec_fn(CommitView) -> bool,
    b: spec_fn(CommitView) -> bool,
)
    requires
        forall|i: int| 0 <= i < commits.len() ==> a(#[trigger] commits[i]) == b(commits[i]),
    ensures
        tally(commits, a) == tally(commits, b),
    decreases commits.len(),
{
    if commits.len() > 0 {
        let fewer = commits.drop_last();
        assert forall|i: int| 0 <= i < fewer.len() implies a(#[trigger] fewer[i]) == b(fewer[i]) by {
            assert(fewer[i] == commits[i]);
        }
        lemma_tally_same(fewer, a, b);
        assert(a(commits[commits.len() - 1]) == b(commits[commits.len() - 1]));
    }
}

proof fn lemma_spread_step(commits: Seq<CommitView>, place: spec_fn(CommitView) -> int, n: int)
    requires
        commits.len() > 0,
        0 <= n,
        0 <= place(commits.last()),
    ensures
        spread(commits, place, n) == if place(commits.last()) < n {
            (
                spread(commits.drop_last(), place, n).0 + commits.last().paths.len(),
                spread(commits.drop_last(), place, n).1 + 1,
            )
        } else {
            spread(commits.drop_last(), place, n)
        },
    decreases n,
{
    if n > 0 {
        lemma_spread_step(commits, place, n - 1);
    }
}

/// Where every commit has a place among the first `n`, the places hold every path and every commit.
proof fn lemma_spread_all(commits: Seq<CommitView>, place: spec_fn(CommitView) -> int, n: int)
    requires
        0 <= n,
        forall|i: int| 0 <= i < commits.len() ==> 0 <= place(#[trigger] commits[i]) < n,
    ensures
        spread(commits, place, n) == (all_paths(commits).len() as int, commits.len() as int),
    decreases commits.len(),
{
    if commits.len() == 0 {
        lemma_spread_none(commits, place, n);
    } else {
        let fewer = commits.drop_last();
        assert forall|i: int| 0 <= i < fewer.len() implies 0 <= place(#[trigger] fewer[i]) < n by {
            assert(fewer[i] == commits[i]);
        }
        lemma_spread_all(fewer, place, n);
        assert(commits.last() == commits[commits.len() - 1]);
        lemma_spread_step(commits, place, n);
    }
}

proof fn lemma_spread_none(commits: Seq<CommitView>, place: spec_fn(CommitView) -> int, n: int)
    requires
        commits.len() == 0,
        0 <= n,
    ensures
        spread(commits, place, n) == (0int, 0int),
    decreases n,
{
    if n > 0 {
        lemma_spread_none(commits, place, n - 1);
    }
}

/// The paths and the commits in the first `n` cells together.
pub open spec fn cells_total(cells: Seq<CellView>, n: int) -> (int, int)
    decreases n,
{
    if n <= 0 {
        (0, 0)
    } else {
        let before = cells_total(cells, n - 1);
        (before.0 + cells[n - 1].files, before.1 + cells[n - 1].revs)
    }
}

/// A heat map loses nothing and counts nothing twice: where all commits lie between `from` and
/// `to`, its cells together hold every path and every commit.
pub proof fn law_heat_counts_every_commit(commits: Seq<CommitView>, from: Date, to: Date)
    requires
        from.wf(),
        to.wf(),
        from.number() <= to.number(),
        forall|i: int|
            0 <= i < commits.len() ==> (#[trigger] commits[i]).day.wf() && from.number()
                <= commits[i].day.number() <= to.number(),
    ensures
        cells_total(
            heat_of(commits, from, to).cells,
            heat_of(commits, from, to).cells.len() as int,
        ) == (all_paths(commits).len() as int, commits.len() as int),
{
    let cells = heat_of(commits, from, to).cells;
    let days = to.number() - from.number() + 1;
    if days <= HEATMAP_DAY_LIMIT {
        let place = |c: CommitView| c.day.number() - from.number();
        lemma_day_cells_spread(commits, from, to, days);
        lemma_spread_all(commits, place, days);
    } else {
        let months = to.month_number() - from.month_number() + 1;
        let place = |c: CommitView| c.day.month_number() - from.month_number();
        assert forall|i: int| 0 <= i < commits.len() implies 0 <= place(#[trigger] commits[i])
            < months by {
            date::lemma_order(commits[i].day, from);
            date::lemma_order(from, commits[i].day);
            date::lemma_order(to, commits[i].day);
            date::lemma_order(commits[i].day, to);
        }
        date::lemma_order(to, from);
        lemma_month_cells_spread(commits, from, to, months);
        lemma_spread_all(commits, place, months);
    }
}

/// `cells` split the days from `from` to `to` among them: they follow one another without a gap and
/// without overlap, and each covers at least one day.
pub open spec fn split_days(cells: Seq<CellView>, from: Date, to: Date) -> bool {
    &&& cells.len() > 0
    &&& cells[0].from == from
    &&& cells.last().to == to
    &&& forall|i: int|
        0 <= i < cells.len() ==> (#[trigger] cells[i]).from.wf() && cells[i].to.wf()
            && cells[i].from.number() <= cells[i].to.number()
    &&& forall|i: int, j: int|
        0 <= i && j == i + 1 && j < cells.len() ==> (#[trigger] cells[j]).from.number() == (
        #[trigger] cells[i]).to.number() + 1
}

/// The day with number `n` belongs to cell `i`.
pub open spec fn cell_holds(cells: Seq<CellView>, i: int, n: int) -> bool {
    0 <= i < cells.len() && cells[i].from.number() <= n <= cells[i].to.number()
}

proof fn lemma_cells_apart(cells: Seq<CellView>, from: Date, to: Date, i: int, j: int)
    requires
        split_days(cells, from, to),
        0 <= i < j < cells.len(),
    ensures
        cells[i].to.number() < cells[j].from.number(),
    decreases j - i,
{
    let k = i + 1;
    assert(cells[k].from.number() == cells[i].to.number() + 1);
    if k < j {
        lemma_cells_apart(cells, from, to, k, j);
        assert(cells[k].from.number() <= cells[k].to.number());
    }
}

/// Of the days up to those of cell `i`, each belongs to a cell.
proof fn lemma_cells_reach(cells: Seq<CellView>, from: Date, to: Date, i: int, n: int)
    requires
        split_days(cells, from, to),
        0 <= i < cells.len(),
        from.number() <= n <= cells[i].to.number(),
    ensures
        exists|k: int| #[trigger] cell_holds(cells, k, n),
    decreases i,
{
    if cells[i].from.number() <= n {
        assert(cell_holds(cells, i, n));
    } else {
        assert(i > 0);
        let h = i - 1;
        let j = i;
        assert(cells[j].from.number() == cells[h].to.number() + 1);
        lemma_cells_reach(cells, from, to, h, n);
    }
}

/// Every day from `from` to `to` has a cell, and only these days have one.
proof fn lemma_days_split(cells: Seq<CellView>, from: Date, to: Date)
    requires
        split_days(cells, from, to),
    ensures
        forall|n: int| #[trigger] shown_day(cells, n) <==> from.number() <= n <= to.number(),
        forall|i: int, j: int|
            0 <= i < j < cells.len() ==> (#[trigger] cells[i]).to.number() < (
            #[trigger] cells[j]).from.number(),
{
    let last = cells.len() - 1;
    assert forall|i: int, j: int| 0 <= i < j < cells.len() implies (
    #[trigger] cells[i]).to.number() < (#[trigger] cells[j]).from.number() by {
        lemma_cells_apart(cells, from, to, i, j);
    }
    assert forall|n: int| #[trigger] shown_day(cells, n) <==> from.number() <= n
        <= to.number() by {
        if from.number() <= n <= to.number() {
            lemma_cells_reach(cells, from, to, last, n);
        }
        if shown_day(cells, n) {
            let k = choose|k: int| #[trigger] cell_holds(cells, k, n);
            if k > 0 {
                assert(cells[0].to.number() < cells[k].from.number());
            }
            if k < last {
                assert(cells[k].to.number() < cells[last].from.number());
            }
            assert(cells[0].from.number() <= cells[0].to.number());
            assert(cells[last].from.number() <= cells[last].to.number());
        }
    }
}

/// The day with number `n` belongs to a cell.
pub open spec fn shown_day(cells: Seq<CellView>, n: int) -> bool {
    exists|k: int| #[trigger] cell_holds(cells, k, n)
}

/// `max` is the most paths in a cell; zero where there are none.
pub open spec fn is_most(cells: Seq<CellView>, max: int) -> bool {
    &&& forall|i: int| 0 <= i < cells.len() ==> (#[trigger] cells[i]).files <= max
    &&& max == 0 || exists|i: int| 0 <= i < cells.len() && (#[trigger] cells[i]).files == max
}

proof fn lemma_most_files(cells: Seq<CellView>, n: int)
    requires
        0 <= n <= cells.len(),
    ensures
        forall|i: int| 0 <= i < n ==> (#[trigger] cells[i]).files <= most_files(cells, n),
        most_files(cells, n) == 0 || exists|i: int|
            0 <= i < n && (#[trigger] cells[i]).files == most_files(cells, n),
    decreases n,
{
    if n > 0 {
        lemma_most_files(cells, n - 1);
        if cells[n - 1].files > most_files(cells, n - 1) {
            assert(cells[n - 1].files == most_files(cells, n));
        }
    }
}

/// The cells of a heat map split the days from `from` to `to` among them: each of these days has
/// exactly one cell, and no other day has one. No two cells share a place, and all places lie on
/// the map. A cell is one day in the row of its weekday where there are few days, and the days of
/// one month in the row of that month otherwise. The colour scale ends at the fullest cell.
pub proof fn law_heat_cells_split_the_days(commits: Seq<CommitView>, from: Date, to: Date)
    requires
        from.wf(),
        to.wf(),
        from.number() <= to.number(),
        heat_fits(from, to),
    ensures
        ({
            let h = heat_of(commits, from, to);
            &&& forall|n: int| #[trigger]
                shown_day(h.cells, n) <==> from.number() <= n <= to.number()
            &&& forall|i: int, j: int|
                0 <= i < j < h.cells.len() ==> (#[trigger] h.cells[i]).to.number() < (
                #[trigger] h.cells[j]).from.number()
            &&& forall|i: int, j: int|
                0 <= i < j < h.cells.len() ==> !((#[trigger] h.cells[i]).col == (
                #[trigger] h.cells[j]).col && h.cells[i].row == h.cells[j].row)
            &&& forall|i: int|
                0 <= i < h.cells.len() ==> 0 <= (#[trigger] h.cells[i]).col < h.cols && 0
                    <= h.cells[i].row < h.rows
            &&& is_most(h.cells, h.max)
            &&& h.mode == HeatMode::Day <==> to.number() - from.number() + 1 <= HEATMAP_DAY_LIMIT
            &&& h.mode == HeatMode::Day ==> forall|i: int|
                0 <= i < h.cells.len() ==> (#[trigger] h.cells[i]).from == h.cells[i].to
                    && h.cells[i].row == week_row(h.cells[i].from.number())
            &&& h.mode == HeatMode::Month ==> forall|i: int|
                0 <= i < h.cells.len() ==> (#[trigger] h.cells[i]).row + 1 == h.cells[i].from.month
                    && h.cells[i].from.month_number() == h.cells[i].to.month_number()
        }),
{
    let h = heat_of(commits, from, to);
    lemma_most_files(h.cells, h.cells.len() as int);
    if to.number() - from.number() + 1 <= HEATMAP_DAY_LIMIT {
        lemma_day_cells(commits, from, to);
    } else {
        lemma_month_cells(commits, from, to);
    }
    lemma_days_split(h.cells, from, to);
}

#[verifier::spinoff_prover]
#[verifier::rlimit(30)]
proof fn lemma_day_cells(commits: Seq<CommitView>, from: Date, to: Date)
    requires
        from.wf(),
        to.wf(),
        from.number() <= to.number(),
    ensures
        ({
            let h = day_map(commits, from, to);
            &&& split_days(h.cells, from, to)
            &&& forall|i: int, j: int|
                0 <= i < j < h.cells.len() ==> !((#[trigger] h.cells[i]).col == (
                #[trigger] h.cells[j]).col && h.cells[i].row == h.cells[j].row)
            &&& forall|i: int|
                0 <= i < h.cells.len() ==> 0 <= (#[trigger] h.cells[i]).col < h.cols && 0
                    <= h.cells[i].row < h.rows && h.cells[i].from == h.cells[i].to
                    && h.cells[i].row == week_row(h.cells[i].from.number())
        }),
{
    let h = day_map(commits, from, to);
    let days = to.number() - from.number() + 1;
    assert forall|i: int| 0 <= i < days implies (#[trigger] h.cells[i]).from.wf()
        && h.cells[i].from.number() == from.number() + i by {
        lemma_day_exists(from, to, i);
    }
    let w = week_row(from.number());
    assert forall|i: int| 0 <= i < days implies (#[trigger] h.cells[i]).col == (w + i) / 7
        && h.cells[i].row == (w + i) % 7 && h.cells[i].from == h.cells[i].to && h.cells[i].row
        == week_row(h.cells[i].from.number()) by {}
    date::lemma_number_injective(h.cells[0].from, from);
    date::lemma_number_injective(h.cells[days - 1].from, to);
}

#[verifier::spinoff_prover]
#[verifier::rlimit(30)]
proof fn lemma_month_cells(commits: Seq<CommitView>, from: Date, to: Date)
    requires
        from.wf(),
        to.wf(),
        from.number() <= to.number(),
        month_fits(to.year as int, to.month as int),
    ensures
        ({
            let h = month_map(commits, from, to);
            &&& split_days(h.cells, from, to)
            &&& forall|i: int, j: int|
                0 <= i < j < h.cells.len() ==> !((#[trigger] h.cells[i]).col == (
                #[trigger] h.cells[j]).col && h.cells[i].row == h.cells[j].row)
            &&& forall|i: int|
                0 <= i < h.cells.len() ==> 0 <= (#[trigger] h.cells[i]).col < h.cols && 0
                    <= h.cells[i].row < h.rows && h.cells[i].row + 1 == h.cells[i].from.month
                    && h.cells[i].from.month_number() == h.cells[i].to.month_number()
        }),
{
    let h = month_map(commits, from, to);
    let a = from.month_number();
    let months = to.month_number() - a + 1;
    date::lemma_order(to, from);
    assert forall|i: int| 0 <= i < months implies month_cell_fits(
        #[trigger] h.cells[i],
        from,
        to,
        a + i,
    ) by {
        lemma_month_cell(commits, from, to, i);
    }
    assert forall|i: int, j: int| 0 <= i && j == i + 1 && j < months implies (
    #[trigger] h.cells[j]).from.number() == (#[trigger] h.cells[i]).to.number() + 1 by {
        assert(month_cell_fits(h.cells[i], from, to, a + i));
        assert(month_cell_fits(h.cells[j], from, to, a + j));
        lemma_months_meet(a + i);
    }
    assert(month_cell_fits(h.cells[0], from, to, a));
    assert(month_cell_fits(h.cells[months - 1], from, to, a + months - 1));
    assert forall|i: int, j: int| 0 <= i < j < months implies !((#[trigger] h.cells[i]).col == (
    #[trigger] h.cells[j]).col && h.cells[i].row == h.cells[j].row) by {
        assert(month_cell_fits(h.cells[i], from, to, a + i));
        assert(month_cell_fits(h.cells[j], from, to, a + j));
    }
    assert forall|i: int| 0 <= i < months implies 0 <= (#[trigger] h.cells[i]).col < h.cols && 0
        <= h.cells[i].row < h.rows && h.cells[i].row + 1 == h.cells[i].from.month
        && h.cells[i].from.month_number() == h.cells[i].to.month_number() by {
        assert(month_cell_fits(h.cells[i], from, to, a + i));
    }
}

/// The days of the cell of month `n`, between `from` and `to`.
spec fn month_cell_fits(c: CellView, from: Date, to: Date, n: int) -> bool {
    let span = month_span(n / 12, n % 12 + 1);
    &&& c.from == (if n == from.month_number() {
        from
    } else {
        span.0
    })
    &&& c.to == (if n == to.month_number() {
        to
    } else {
        span.1
    })
    &&& c.from.wf()
    &&& c.to.wf()
    &&& c.from.number() <= c.to.number()
    &&& c.from.month_number() == n
    &&& c.to.month_number() == n
    &&& c.col == n / 12 - from.year
    &&& c.row == n % 12
}

proof fn lemma_month_cell(commits: Seq<CommitView>, from: Date, to: Date, i: int)
    requires
        from.wf(),
        to.wf(),
        from.number() <= to.number(),
        0 <= i <= to.month_number() - from.month_number(),
    ensures
        month_cell_fits(month_cell(commits, from, to, i), from, to, from.month_number() + i),
{
    let n = from.month_number() + i;
    let year = n / 12;
    let month = n % 12 + 1;
    let first = month_span(year, month).0;
    let last = month_span(year, month).1;
    assert(from.year <= year <= to.year);
    assert(first.wf() && last.wf());
    assert(first.month_number() == n && last.month_number() == n);
    assert(n == from.month_number() ==> from.year == year && from.month == month);
    assert(n == to.month_number() ==> to.year == year && to.month == month);
    date::lemma_order(first, from);
    date::lemma_order(to, last);
    date::lemma_order(last, first);
    date::lemma_order(last, from);
    date::lemma_order(to, first);
}

proof fn lemma_months_meet(n: int)
    requires
        month_fits(n / 12, n % 12 + 1),
    ensures
        month_span((n + 1) / 12, (n + 1) % 12 + 1).0.number() == month_span(
            n / 12,
            n % 12 + 1,
        ).1.number() + 1,
{
    let d = month_span(n / 12, n % 12 + 1).1;
    let end = Date { year: date::LAST_YEAR, month: 12, day: 31 };
    assert(d.wf() && end.wf());
    date::lemma_order(d, end);
    date::lemma_day_after(d);
}

proof fn lemma_day_cells_spread(commits: Seq<CommitView>, from: Date, to: Date, n: int)
    requires
        from.wf(),
        to.wf(),
        0 <= n <= to.number() - from.number() + 1,
        to.number() - from.number() + 1 <= HEATMAP_DAY_LIMIT,
        forall|i: int|
            0 <= i < commits.len() ==> (#[trigger] commits[i]).day.wf() && from.number()
                <= commits[i].day.number() <= to.number(),
    ensures
        cells_total(heat_of(commits, from, to).cells, n) == spread(
            commits,
            |c: CommitView| c.day.number() - from.number(),
            n,
        ),
    decreases n,
{
    if n > 0 {
        lemma_day_cells_spread(commits, from, to, n - 1);
        let place = |c: CommitView| c.day.number() - from.number();
        let d = date::numbered(from.number() + n - 1);
        assert forall|i: int| 0 <= i < commits.len() implies (|c: CommitView| c.day == d)(
            #[trigger] commits[i],
        ) == (|c: CommitView| place(c) == n - 1)(commits[i]) by {
            let c = commits[i];
            if c.day.number() == from.number() + n - 1 {
                date::lemma_number_injective(d, c.day);
            } else if c.day == d {
                lemma_day_exists(from, to, n - 1);
            }
        }
        lemma_tally_same(
            commits,
            |c: CommitView| c.day == d,
            |c: CommitView| place(c) == n - 1,
        );
    }
}

/// The files and the commits in the first `n` buckets.
pub open spec fn buckets_total(buckets: Seq<BucketView>, n: int) -> (int, int)
    decreases n,
{
    if n <= 0 {
        (0, 0)
    } else {
        let before = buckets_total(buckets, n - 1);
        (before.0 + buckets[n - 1].files, before.1 + buckets[n - 1].revs)
    }
}

/// The time of a commit names an hour of the day.
pub open spec fn has_hour(c: CommitView) -> bool {
    exists|h: int| 0 <= h < 24 && commit_key(Granularity::Hour, c) == #[trigger] text::padded(h, 2)
}

/// The hour that the time of a commit names.
spec fn hour_of(c: CommitView) -> int {
    choose|h: int| 0 <= h < 24 && commit_key(Granularity::Hour, c) == #[trigger] text::padded(h, 2)
}

/// The place of a commit on the axis that begins at `from`.
spec fn bucket_of(gran: Granularity, from: Date, c: CommitView) -> int {
    match gran {
        Granularity::Hour => hour_of(c),
        Granularity::Day => c.day.number() - from.number(),
        Granularity::Month => c.day.month_number() - from.month_number(),
    }
}

/// A bucket takes the commits that belong on its step of the axis, and no others.
proof fn lemma_bucket_takes_its_own(
    commits: Seq<CommitView>,
    from: Date,
    to: Date,
    i: int,
    k: int,
)
    requires
        from.wf(),
        to.wf(),
        from.number() <= to.number(),
        granularity(to.number() - from.number() + 1) is Month ==> 0 <= commits[i].day.year <= 9999,
        0 <= i < commits.len(),
        commits[i].day.wf(),
        from.number() <= commits[i].day.number() <= to.number(),
        granularity(to.number() - from.number() + 1) is Hour ==> has_hour(commits[i]),
        0 <= k < buckets_of(commits, from, to).len(),
    ensures
        ({
            let gran = granularity(to.number() - from.number() + 1);
            let b = buckets_of(commits, from, to)[k];
            (commit_key(gran, commits[i]) == b.key) == (bucket_of(gran, from, commits[i]) == k)
        }),
{
    let gran = granularity(to.number() - from.number() + 1);
    let c = commits[i];
    date::lemma_order(c.day, from);
    date::lemma_order(from, c.day);
    date::lemma_order(c.day, to);
    date::lemma_order(to, c.day);
    match gran {
        Granularity::Hour => {
            let h = hour_of(c);
            text::lemma_padded_two(h);
            text::lemma_padded_two(k);
            if text::padded(h, 2) == text::padded(k, 2) {
                assert(text::padded(h, 2)[0] == text::padded(k, 2)[0]);
                assert(text::padded(h, 2)[1] == text::padded(k, 2)[1]);
                text::lemma_digits_differ(h / 10, k / 10);
                text::lemma_digits_differ(h % 10, k % 10);
            }
        },
        Granularity::Day => {
            let d = date::numbered(from.number() + k);
            lemma_day_exists(from, to, k);
            date::lemma_order(d, from);
            date::lemma_order(from, d);
            date::lemma_order(d, to);
            date::lemma_order(to, d);
            if date::date_text(c.day) == date::date_text(d) {
                date::lemma_date_text_injective(c.day, d);
            }
            if c.day.number() == d.number() {
                date::lemma_number_injective(c.day, d);
            }
        },
        Granularity::Month => {
            let n = from.month_number() + k;
            let m = c.day.month_number();
            assert(date::month_text(c.day) =~= month_key(m));
            lemma_month_in_key(m);
            if n >= 0 {
                lemma_month_in_key(n);
            } else {
                text::lemma_padded_value(m / 12, 4);
                assert(month_key(n)[0] == '-');
                assert(month_key(m)[0] == text::padded(m / 12, 4)[0]);
            }
        },
    }
}

proof fn lemma_buckets_spread(commits: Seq<CommitView>, from: Date, to: Date, n: int)
    requires
        from.wf(),
        to.wf(),
        from.number() <= to.number(),
        granularity(to.number() - from.number() + 1) is Month ==> forall|i: int|
            0 <= i < commits.len() ==> 0 <= (#[trigger] commits[i]).day.year <= 9999,
        forall|i: int|
            0 <= i < commits.len() ==> (#[trigger] commits[i]).day.wf() && from.number()
                <= commits[i].day.number() <= to.number(),
        granularity(to.number() - from.number() + 1) is Hour ==> forall|i: int|
            0 <= i < commits.len() ==> has_hour(#[trigger] commits[i]),
        0 <= n <= buckets_of(commits, from, to).len(),
    ensures
        buckets_total(buckets_of(commits, from, to), n) == spread(
            commits,
            |c: CommitView| bucket_of(granularity(to.number() - from.number() + 1), from, c),
            n,
        ),
    decreases n,
{
    if n > 0 {
        lemma_buckets_spread(commits, from, to, n - 1);
        let gran = granularity(to.number() - from.number() + 1);
        let place = |c: CommitView| bucket_of(gran, from, c);
        let b = buckets_of(commits, from, to)[n - 1];
        assert forall|i: int| 0 <= i < commits.len() implies (|c: CommitView|
            commit_key(gran, c) == b.key)(#[trigger] commits[i]) == (|c: CommitView|
            place(c) == n - 1)(commits[i]) by {
            lemma_bucket_takes_its_own(commits, from, to, i, n - 1);
        }
        lemma_tally_same(
            commits,
            |c: CommitView| commit_key(gran, c) == b.key,
            |c: CommitView| place(c) == n - 1,
        );
    }
}

/// A chart loses nothing and counts nothing twice: where all commits lie between `from` and `to`,
/// its buckets together hold every path and every commit. Where buckets are months, the commits lie
/// in the years that are written with four digits; where they are hours, every commit names one.
pub proof fn law_buckets_count_every_commit(commits: Seq<CommitView>, from: Date, to: Date)
    requires
        from.wf(),
        to.wf(),
        from.number() <= to.number(),
        granularity(to.number() - from.number() + 1) is Month ==> forall|i: int|
            0 <= i < commits.len() ==> 0 <= (#[trigger] commits[i]).day.year <= 9999,
        forall|i: int|
            0 <= i < commits.len() ==> (#[trigger] commits[i]).day.wf() && from.number()
                <= commits[i].day.number() <= to.number(),
        granularity(to.number() - from.number() + 1) is Hour ==> forall|i: int|
            0 <= i < commits.len() ==> has_hour(#[trigger] commits[i]),
    ensures
        buckets_total(
            buckets_of(commits, from, to),
            buckets_of(commits, from, to).len() as int,
        ) == (all_paths(commits).len() as int, commits.len() as int),
{
    let gran = granularity(to.number() - from.number() + 1);
    let n = buckets_of(commits, from, to).len() as int;
    let place = |c: CommitView| bucket_of(gran, from, c);
    date::lemma_order(from, to);
    date::lemma_order(to, from);
    assert forall|i: int| 0 <= i < commits.len() implies 0 <= place(#[trigger] commits[i]) < n by {
        date::lemma_order(commits[i].day, from);
        date::lemma_order(from, commits[i].day);
        date::lemma_order(to, commits[i].day);
        date::lemma_order(commits[i].day, to);
    }
    lemma_buckets_spread(commits, from, to, n);
    lemma_spread_all(commits, place, n);
}

/// Between two dates every number belongs to a date.
proof fn lemma_day_exists(from: Date, to: Date, i: int)
    requires
        from.wf(),
        to.wf(),
        0 <= i <= to.number() - from.number(),
    ensures
        date::numbered(from.number() + i).wf(),
        date::numbered(from.number() + i).number() == from.number() + i,
{
    date::lemma_numbers_between(from, to, from.number() + i);
}

proof fn lemma_month_cells_spread(commits: Seq<CommitView>, from: Date, to: Date, n: int)
    requires
        from.wf(),
        to.wf(),
        0 <= n <= to.month_number() - from.month_number() + 1,
        to.number() - from.number() + 1 > HEATMAP_DAY_LIMIT,
    ensures
        cells_total(heat_of(commits, from, to).cells, n) == spread(
            commits,
            |c: CommitView| c.day.month_number() - from.month_number(),
            n,
        ),
    decreases n,
{
    if n > 0 {
        lemma_month_cells_spread(commits, from, to, n - 1);
        let place = |c: CommitView| c.day.month_number() - from.month_number();
        let m = from.month_number() + n - 1;
        lemma_tally_same(
            commits,
            |c: CommitView| c.day.month_number() == m,
            |c: CommitView| place(c) == n - 1,
        );
    }
}

impl Heat {
    /// The position of the first cell in a column and a row; nothing where there is none.
    pub fn cell_at(&self, col: usize, row: usize) -> (r: Option<usize>)
        ensures
            match r {
                Some(i) => {
                    &&& i < self.cells@.len()
                    &&& self.cells@[i as int].col == col && self.cells@[i as int].row == row
                    &&& forall|k: int|
                        0 <= k < i ==> !((#[trigger] self.cells@[k]).col == col && self.cells@[k].row
                            == row)
                },
                None => forall|k: int|
                    0 <= k < self.cells@.len() ==> !((#[trigger] self.cells@[k]).col == col
                        && self.cells@[k].row == row),
            },
    {
        let mut i: usize = 0;
        while i < self.cells.len()
            invariant
                i <= self.cells.len(),
                forall|k: int|
                    0 <= k < i ==> !((#[trigger] self.cells@[k]).col == col && self.cells@[k].row
                        == row),
            decreases self.cells.len() - i,
        {
            if self.cells[i].col == col && self.cells[i].row == row {
                return Some(i);
            }
            i += 1;
        }
        None
    }
}

// ---------------------------------------------------------------- which commits a bucket holds

/// How many paths `commits` have together.
pub open spec fn path_sum(commits: Seq<CommitView>) -> int {
    commits.fold_left(0int, |sum: int, c: CommitView| sum + c.paths.len())
}

/// `files` and `revs` count the paths of those commits that `here` marks, and these commits.
pub open spec fn counts(
    commits: Seq<CommitView>,
    here: spec_fn(CommitView) -> bool,
    files: int,
    revs: int,
) -> bool {
    files == path_sum(commits.filter(here)) && revs == commits.filter(here).len()
}

proof fn lemma_tally_counts(commits: Seq<CommitView>, here: spec_fn(CommitView) -> bool)
    ensures
        counts(commits, here, tally(commits, here).0, tally(commits, here).1),
    decreases commits.len(),
{
    reveal(Seq::filter);
    if commits.len() > 0 {
        let fewer = commits.drop_last();
        lemma_tally_counts(fewer, here);
        if here(commits.last()) {
            assert(commits.filter(here).drop_last() =~= fewer.filter(here));
            assert(commits.filter(here).last() == commits.last());
        }
    }
}

/// The time of day begins with the two digits of `h`. A time without two bytes to begin with counts
/// as midnight.
pub open spec fn at_hour(time: Seq<char>, h: int) -> bool {
    ||| time.len() >= 2 && time[0] == text::digit(h / 10) && time[1] == text::digit(h % 10)
    ||| h == 0 && (time.len() == 0 || time[0] > '\u{7ff}' || time[0] <= '\u{7f}' && (time.len() == 1
        || time[1] > '\u{7f}'))
}

proof fn lemma_at_hour(c: CommitView, h: int)
    requires
        0 <= h < 24,
    ensures
        (commit_key(Granularity::Hour, c) == text::padded(h, 2)) == at_hour(c.time, h),
{
    let t = c.time;
    reveal_with_fuel(text::chars_in_bytes, 3);
    reveal_strlit("00");
    text::lemma_padded_two(h);
    let p = text::padded(h, 2);
    let a = p[0];
    let b = p[1];
    assert(text::digit(h / 10) as int == 48 + h / 10);
    assert(text::digit(h % 10) as int == 48 + h % 10);
    assert(p.len() == 2 && a <= '\u{7f}' && b <= '\u{7f}');
    if t.len() > 0 {
        let u = text::after(t, 1);
        assert(u.len() == t.len() - 1);
        if t.len() > 1 {
            assert(u[0] == t[1]);
        }
    }
    match text::byte_prefix(t, 2) {
        Some(key) => {
            if t[0] <= '\u{7f}' {
                assert(t.len() >= 2 && t[1] <= '\u{7f}');
                assert(key =~= seq![t[0], t[1]]);
                assert(key[0] == t[0] && key[1] == t[1]);
                if t[0] == a && t[1] == b {
                    assert(key =~= p);
                }
            } else {
                assert(key.len() == 1);
            }
        },
        None => {
            if h == 0 {
                assert("00"@ =~= p);
            } else {
                assert("00"@[0] == '0' && "00"@[1] == '0');
                assert(a != '0' || b != '0');
            }
        },
    }
}

/// The commit lies on step `k` of the axis from `from` to `to`: hours of the day, days, or months.
pub open spec fn on_step(from: Date, to: Date, c: CommitView, k: int) -> bool {
    let days = to.number() - from.number() + 1;
    if days <= 1 {
        at_hour(c.time, k)
    } else if days <= 62 {
        c.day.number() == from.number() + k
    } else {
        c.day.year * 12 + c.day.month == from.year * 12 + from.month + k
    }
}

/// On a single day bucket `h` counts just the commits whose time of day begins with the two digits
/// of `h`. From two days to 62 bucket `k` counts just the commits of the `k`th day. Beyond that it
/// counts just the commits of the `k`th month, in the years that are written with four digits.
pub proof fn law_buckets_hold_their_commits(commits: Seq<CommitView>, from: Date, to: Date, k: int)
    requires
        from.wf(),
        to.wf(),
        from.number() <= to.number(),
        forall|i: int| 0 <= i < commits.len() ==> (#[trigger] commits[i]).day.wf(),
        to.number() - from.number() + 1 > 62 ==> forall|i: int|
            0 <= i < commits.len() ==> 0 <= (#[trigger] commits[i]).day.year <= 9999,
        0 <= k < buckets_of(commits, from, to).len(),
    ensures
        counts(
            commits,
            |c: CommitView| on_step(from, to, c, k),
            buckets_of(commits, from, to)[k].files,
            buckets_of(commits, from, to)[k].revs,
        ),
        buckets_of(commits, from, to).len() == {
            let days = to.number() - from.number() + 1;
            if days <= 1 {
                24
            } else if days <= 62 {
                days
            } else {
                to.year * 12 + to.month - (from.year * 12 + from.month) + 1
            }
        },
{
    let days = to.number() - from.number() + 1;
    let gran = granularity(days);
    let b = buckets_of(commits, from, to)[k];
    let own = |c: CommitView| commit_key(gran, c) == b.key;
    let step = |c: CommitView| on_step(from, to, c, k);
    date::lemma_order(to, from);
    assert forall|i: int| 0 <= i < commits.len() implies own(#[trigger] commits[i]) == step(
        commits[i],
    ) by {
        let c = commits[i];
        match gran {
            Granularity::Hour => {
                lemma_at_hour(c, k);
            },
            Granularity::Day => {
                let d = date::numbered(from.number() + k);
                lemma_day_exists(from, to, k);
                if date::date_text(c.day) == date::date_text(d) {
                    date::lemma_date_text_injective(c.day, d);
                }
                if c.day.number() == d.number() {
                    date::lemma_number_injective(c.day, d);
                }
            },
            Granularity::Month => {
                let n = from.month_number() + k;
                let m = c.day.month_number();
                assert(date::month_text(c.day) =~= month_key(m));
                lemma_month_in_key(m);
                if n >= 0 {
                    lemma_month_in_key(n);
                } else {
                    text::lemma_padded_value(m / 12, 4);
                    assert(month_key(n)[0] == '-');
                    assert(month_key(m)[0] == text::padded(m / 12, 4)[0]);
                }
            },
        }
    }
    lemma_tally_same(commits, own, step);
    lemma_tally_counts(commits, step);
}

/// A time that begins with the two digits of an hour belongs to the bucket of that hour and to no
/// other.
pub proof fn law_hours_are_told_apart(time: Seq<char>, h: int, k: int)
    requires
        0 <= h < 24,
        0 <= k < 24,
        time.len() >= 2,
        time[0] == text::digit(h / 10),
        time[1] == text::digit(h % 10),
    ensures
        at_hour(time, k) <==> k == h,
{
    assert(text::digit(h / 10) as int == 48 + h / 10);
    assert(text::digit(h % 10) as int == 48 + h % 10);
    if at_hour(time, k) {
        text::lemma_digits_differ(h / 10, k / 10);
        text::lemma_digits_differ(h % 10, k % 10);
    }
}

/// A cell of a heat map counts just the commits of its days.
pub proof fn law_cells_hold_their_commits(commits: Seq<CommitView>, from: Date, to: Date, k: int)
    requires
        from.wf(),
        to.wf(),
        from.number() <= to.number(),
        forall|i: int|
            0 <= i < commits.len() ==> (#[trigger] commits[i]).day.wf() && from.number()
                <= commits[i].day.number() <= to.number(),
        0 <= k < heat_of(commits, from, to).cells.len(),
    ensures
        ({
            let cell = heat_of(commits, from, to).cells[k];
            counts(
                commits,
                |c: CommitView| cell.from.number() <= c.day.number() <= cell.to.number(),
                cell.files,
                cell.revs,
            )
        }),
{
    let cell = heat_of(commits, from, to).cells[k];
    let inside = |c: CommitView| cell.from.number() <= c.day.number() <= cell.to.number();
    date::lemma_order(to, from);
    if to.number() - from.number() + 1 <= HEATMAP_DAY_LIMIT {
        let own = |c: CommitView| c.day == cell.from;
        lemma_day_exists(from, to, k);
        assert forall|i: int| 0 <= i < commits.len() implies own(#[trigger] commits[i]) == inside(
            commits[i],
        ) by {
            if commits[i].day.number() == cell.from.number() {
                date::lemma_number_injective(commits[i].day, cell.from);
            }
        }
        lemma_tally_same(commits, own, inside);
        assert(cell == day_cell(commits, from, k));
        lemma_tally_same(
            commits,
            |c: CommitView| c.day == date::numbered(from.number() + k),
            own,
        );
    } else {
        let n = from.month_number() + k;
        let own = |c: CommitView| c.day.month_number() == n;
        lemma_month_cell(commits, from, to, k);
        let first = cell.from;
        let last = cell.to;
        let span = month_span(n / 12, n % 12 + 1);
        assert forall|i: int| 0 <= i < commits.len() implies own(#[trigger] commits[i]) == inside(
            commits[i],
        ) by {
            let d = commits[i].day;
            date::lemma_order(d, first);
            date::lemma_order(first, d);
            date::lemma_order(d, last);
            date::lemma_order(last, d);
            date::lemma_order(d, from);
            date::lemma_order(to, d);
            if own(commits[i]) {
                assert(d.year == n / 12 && d.month == n % 12 + 1);
                assert(span.0.wf() && span.1.wf());
                date::lemma_order(d, span.0);
                date::lemma_order(span.1, d);
            }
        }
        lemma_tally_same(commits, own, inside);
    }
    lemma_tally_counts(commits, inside);
}

// ---------------------------------------------------------------- which buckets and columns are marked

/// The buckets that can be clicked are those with files, in order.
pub proof fn law_busy_buckets_in_order(buckets: Seq<BucketView>, n: int)
    requires
        0 <= n <= buckets.len() <= usize::MAX,
    ensures
        ({
            let list = busy_among(buckets, n);
            &&& forall|i: usize| #[trigger] list.contains(i) <==> i < n && buckets[i as int].files > 0
            &&& forall|j: int, k: int|
                0 <= j < k < list.len() ==> #[trigger] list[j] < #[trigger] list[k]
        }),
    decreases n,
{
    let list = busy_among(buckets, n);
    if n > 0 {
        law_busy_buckets_in_order(buckets, n - 1);
        let before = busy_among(buckets, n - 1);
        let last = (n - 1) as usize;
        assert forall|i: usize| #[trigger] list.contains(i) <==> i < n && buckets[i as int].files
            > 0 by {
            if before.contains(i) {
                let k = choose|k: int| 0 <= k < before.len() && before[k] == i;
                assert(list[k] == i);
            }
            if list.len() > before.len() {
                assert(list[before.len() as int] == last);
            }
            if list.contains(i) {
                let k = choose|k: int| 0 <= k < list.len() && list[k] == i;
                if k < before.len() {
                    assert(before[k] == i);
                    assert(before.contains(i));
                }
            }
        }
        assert forall|j: int, k: int| 0 <= j < k < list.len() implies #[trigger] list[j]
            < #[trigger] list[k] by {
            assert(list[j] == before[j]);
            assert(before.contains(before[j]));
            if k < before.len() {
                assert(list[k] == before[k]);
            }
        }
    }
}

/// The first column of a heat map is labelled with its month, and every other one where its month
/// is not that of the column before it; no column is labelled otherwise.
pub proof fn law_months_are_labelled_where_they_begin(from: Date, n: int)
    requires
        0 <= n,
    ensures
        ({
            let marks = month_marks(from, n);
            &&& forall|m: (int, Seq<char>)| #[trigger]
                marks.contains(m) <==> 0 <= m.0 < n && (m.0 == 0 || col_month(from, m.0)
                    != col_month(from, m.0 - 1)) && m.1 == text::decimal(col_month(from, m.0))
                    + "月"@
            &&& forall|j: int, k: int|
                0 <= j < k < marks.len() ==> (#[trigger] marks[j]).0 < (#[trigger] marks[k]).0
        }),
    decreases n,
{
    let marks = month_marks(from, n);
    if n > 0 {
        law_months_are_labelled_where_they_begin(from, n - 1);
        let before = month_marks(from, n - 1);
        let new = (n - 1, text::decimal(col_month(from, n - 1)) + "月"@);
        assert forall|m: (int, Seq<char>)| #[trigger] marks.contains(m) <==> 0 <= m.0 < n && (m.0
            == 0 || col_month(from, m.0) != col_month(from, m.0 - 1)) && m.1 == text::decimal(
            col_month(from, m.0),
        ) + "月"@ by {
            if before.contains(m) {
                let k = choose|k: int| 0 <= k < before.len() && before[k] == m;
                assert(marks[k] == m);
            }
            if marks.len() > before.len() {
                assert(marks[before.len() as int] == new);
            }
            if marks.contains(m) {
                let k = choose|k: int| 0 <= k < marks.len() && marks[k] == m;
                if k < before.len() {
                    assert(before[k] == m);
                    assert(before.contains(m));
                }
            }
        }
        assert forall|j: int, k: int| 0 <= j < k < marks.len() implies (#[trigger] marks[j]).0 < (
        #[trigger] marks[k]).0 by {
            assert(marks[j] == before[j]);
            assert(before.contains(before[j]));
            if k < before.len() {
                assert(marks[k] == before[k]);
            }
        }
    }
}

/// A bucket is labelled by what it covers: an hour by its number, a day by its month and day, each
/// in two digits, and a month by its number where all lie in one year, else by year and month.
pub proof fn law_buckets_are_labelled(commits: Seq<CommitView>, from: Date, to: Date, k: int)
    requires
        from.wf(),
        to.wf(),
        from.number() <= to.number(),
        0 <= k < buckets_of(commits, from, to).len(),
    ensures
        ({
            let b = buckets_of(commits, from, to)[k];
            let days = to.number() - from.number() + 1;
            &&& days == 1 ==> b.label == text::decimal(k) + seq!['时'] && buckets_of(
                commits,
                from,
                to,
            ).len() == 24
            &&& granularity(days) == Granularity::Day ==> buckets_of(commits, from, to).len()
                == days && exists|d: Date|
                d.wf() && #[trigger] d.number() == from.number() + k && b.key == date::date_text(d)
                    && b.label == text::padded(d.month as int, 2) + seq!['-'] + text::padded(
                    d.day as int,
                    2,
                )
            &&& granularity(days) == Granularity::Month ==> b.label == (if from.year == to.year {
                text::decimal((from.month - 1 + k) % 12 + 1) + seq!['月']
            } else {
                b.key
            })
        }),
{
    reveal_strlit("时");
    reveal_strlit("月");
    assert("时"@ =~= seq!['时']);
    assert("月"@ =~= seq!['月']);
    let days = to.number() - from.number() + 1;
    let b = buckets_of(commits, from, to)[k];
    if granularity(days) == Granularity::Day {
        let n = from.number() + k;
        date::lemma_numbers_between(from, to, n);
        let d = date::numbered(n);
        assert(d.number() == from.number() + k);
    }
    if granularity(days) == Granularity::Month && from.year == to.year {
        let m = from.month_number() + k;
        assert(m == from.year * 12 + from.month - 1 + k);
        assert(m % 12 == (from.month - 1 + k) % 12);
    }
}

proof fn lemma_smaller_step(r: int, k: nat)
    requires
        step_of(r, k),
        k < 12,
        r > 1,
    ensures
        exists|s: int| #[trigger] round_step(s) && s < r && 2 * r <= 5 * s,
{
    if r == power_of_ten(k) {
        assert(k > 0);
        let j = (k - 1) as nat;
        let s = 5 * power_of_ten(j);
        assert(step_of(s, j));
        assert(round_step(s));
    } else if r == 2 * power_of_ten(k) {
        let s = power_of_ten(k);
        assert(step_of(s, k));
        assert(round_step(s));
    } else {
        let s = 2 * power_of_ten(k);
        assert(step_of(s, k));
        assert(round_step(s));
    }
}

/// Four steps of an axis reach what is to be shown, one step is never less than one, and the axis
/// is less than two and a half times as high as it has to be.
pub proof fn law_axis_fits(target: int, r: int)
    requires
        target >= 0,
        axis_step(target, r),
    ensures
        4 * r >= target,
        target > 0 ==> r >= 1,
        target <= 4 ==> r == 1,
        target > 4 ==> 8 * r < 5 * target,
{
    lemma_powers(11);
    if target <= 20 * power_of_ten(11) {
        let k = choose|k: nat| k < 12 && #[trigger] step_of(r, k);
        lemma_powers(k);
        assert(power_of_ten(0) == 1);
        assert(step_of(1, 0));
        assert(round_step(1));
        if r > 1 {
            lemma_smaller_step(r, k);
            let s = choose|s: int| #[trigger] round_step(s) && s < r && 2 * r <= 5 * s;
            assert(4 * s < target);
        }
    } else {
        assert(r == (target + 3) / 4);
    }
}

proof fn lemma_powers(k: nat)
    ensures
        power_of_ten(k) >= 1,
    decreases k,
{
    if k > 0 {
        lemma_powers((k - 1) as nat);
    }
}

} // verus!

