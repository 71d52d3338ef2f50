//! The statistics page: which query it waits for, what it makes of the records that come in, and
//! where a click in a chart leads.

use vstd::prelude::*;
use crate::charts::{
    bucket_views, bucketize, build_heat, buckets_of, days_reached, granularity, heat_fits, heat_of,
    reach_days, Bucket, BucketView, Granularity, Heat, HeatMode, HEATMAP_DAY_LIMIT,
};
use crate::date::{self, Date};
use crate::stats::{
    all_paths, collect, collected, commit_views, commits_wf, flat, range_for, resolve_range,
    revisions_for, revspec, totals, totals_of, undated, ChartKind, Commit, CommitView, RangePreset,
    Totals, ALL_DIRS,
};
use crate::svn::LogEntry;
use crate::text;

verus! {

/// What the page draws.
#[derive(Debug)]
pub struct StatsView {
    pub buckets: Vec<Bucket>,
    pub gran: Granularity,
    pub totals: Totals,
    pub heat: Heat,
    /// The days that the charts cover; none where nothing is drawn.
    pub days: Option<(Date, Date)>,
    /// How many directories have answered, and how many were asked.
    pub received: usize,
    pub expected: usize,
    /// How many records have no day.
    pub skipped: usize,
}

impl StatsView {
    /// There is nothing to draw yet; `expected` directories were asked.
    pub open spec fn blank(self, expected: int) -> bool {
        &&& self.buckets@.len() == 0
        &&& self.gran == Granularity::Day
        &&& self.totals == (Totals { revs: 0, files: 0, distinct_files: 0, active_days: 0, dirs: 0 })
        &&& self.heat.mode == HeatMode::Day
        &&& self.heat.cols == 0
        &&& self.heat.rows == 0
        &&& self.heat.cells@.len() == 0
        &&& self.heat.col_labels@.len() == 0
        &&& self.heat.row_labels@.len() == 0
        &&& self.heat.max == 0
        &&& self.days is None
        &&& self.received == 0
        &&& self.expected == expected
        &&& self.skipped == 0
    }

    fn waiting(expected: usize) -> (r: StatsView)
        ensures
            r.blank(expected as int),
    {
        StatsView {
            buckets: Vec::new(),
            gran: Granularity::Day,
            totals: Totals { revs: 0, files: 0, distinct_files: 0, active_days: 0, dirs: 0 },
            heat: Heat {
                mode: HeatMode::Day,
                cols: 0,
                rows: 0,
                cells: Vec::new(),
                col_labels: Vec::new(),
                row_labels: Vec::new(),
                max: 0,
            },
            days: None,
            received: 0,
            expected,
            skipped: 0,
        }
    }

    /// The days that a click on bucket `index` leads to.
    pub fn days_at(&self, index: usize) -> (r: Option<(Date, Date)>)
        requires
            index < self.buckets@.len(),
        ensures
            r == days_reached(self.gran, self.buckets@[index as int].key@, self.days),
            self.gran == Granularity::Day ==> forall|d: Date|
                d.wf() && 0 <= d.year <= 9999 && self.buckets@[index as int].key@
                    == #[trigger] date::date_text(d) ==> r == Some((d, d)),
    {
        reach_days(self.gran, self.buckets[index].key.as_str(), self.days)
    }
}

impl Default for StatsView {
    fn default() -> (r: StatsView)
        ensures
            r.blank(0),
    {
        StatsView::waiting(0)
    }
}

/// The state of the statistics page.
#[derive(Debug)]
pub struct StatsPage {
    /// The directory; `ALL_DIRS` for all together.
    pub dir: usize,
    pub range: RangePreset,
    pub custom_from: String,
    pub custom_to: String,
    pub chart: ChartKind,
    /// The number of the query: one more whenever the conditions change. Records of another query
    /// are late.
    pub epoch: u64,
    pub expected: Vec<usize>,
    pub done: Vec<(usize, Vec<LogEntry>)>,
    pub failed: Vec<(usize, String)>,
    pub error: String,
    /// The days that the query is for.
    pub span: Option<(Date, Date)>,
    /// What the server was asked for, and whose commits.
    pub revspec: String,
    pub author: String,
    pub view: StatsView,
}

// ---------------------------------------------------------------- drawing

/// The earliest day of the first `n` commits.
pub open spec fn first_day(commits: Seq<CommitView>, n: int) -> Option<Date>
    decreases n,
{
    if n <= 0 {
        None
    } else {
        let c = commits[n - 1].day;
        match first_day(commits, n - 1) {
            Some(d) => if c.number() < d.number() {
                Some(c)
            } else {
                Some(d)
            },
            None => Some(c),
        }
    }
}

/// The latest day of the first `n` commits.
pub open spec fn last_day(commits: Seq<CommitView>, n: int) -> Option<Date>
    decreases n,
{
    if n <= 0 {
        None
    } else {
        let c = commits[n - 1].day;
        match last_day(commits, n - 1) {
            Some(d) => if d.number() < c.number() {
                Some(c)
            } else {
                Some(d)
            },
            None => Some(c),
        }
    }
}

/// The days that the charts cover: those of the query, or those from the first to the last commit.
pub open spec fn charted(commits: Seq<CommitView>, span: Option<(Date, Date)>, today: Date) -> (
    Date,
    Date,
) {
    match span {
        Some(s) => s,
        None => (
            match first_day(commits, commits.len() as int) {
                Some(d) => d,
                None => today,
            },
            match last_day(commits, commits.len() as int) {
                Some(d) => d,
                None => today,
            },
        ),
    }
}

/// The charts can be drawn over these days: they do not touch the ends of the calendar.
pub open spec fn drawable(days: (Date, Date)) -> bool {
    &&& days.0.number() <= days.1.number()
    &&& heat_fits(days.0, days.1)
}

/// `v` draws the commits over `days`.
pub open spec fn draws(v: StatsView, commits: Seq<CommitView>, days: (Date, Date)) -> bool {
    &&& bucket_views(v.buckets@) == buckets_of(commits, days.0, days.1)
    &&& v.gran == granularity(days.1.number() - days.0.number() + 1)
    &&& totals_of(commits, v.totals)
    &&& v.heat@ == heat_of(commits, days.0, days.1)
    &&& v.days == Some(days)
}

proof fn lemma_days_cover(commits: Seq<CommitView>, n: int)
    requires
        0 <= n <= commits.len(),
    ensures
        n > 0 ==> first_day(commits, n) is Some && last_day(commits, n) is Some,
        forall|i: int|
            0 <= i < n ==> first_day(commits, n)->0.number() <= (
            #[trigger] commits[i]).day.number() <= last_day(commits, n)->0.number(),
    decreases n,
{
    if n > 0 {
        lemma_days_cover(commits, n - 1);
    }
}

/// The charts cover the day of every commit that is counted.
pub proof fn law_charts_cover_every_commit(
    done: Seq<(usize, Vec<LogEntry>)>,
    span: Option<(Date, Date)>,
    today: Date,
    i: int,
)
    requires
        0 <= i < collected(done, span).len(),
    ensures
        ({
            let commits = collected(done, span);
            let days = charted(commits, span, today);
            days.0.number() <= commits[i].day.number() <= days.1.number()
        }),
{
    let commits = collected(done, span);
    crate::stats::law_collected(done, span);
    lemma_days_cover(commits, commits.len() as int);
    assert(crate::stats::covers(span, commits[i].day));
}

fn day_range(commits: &Vec<Commit>, span: Option<(Date, Date)>, today: Date) -> (r: (Date, Date))
    requires
        today.wf(),
        date::span_wf(span),
        commits_wf(commit_views(commits@)),
    ensures
        r == charted(commit_views(commits@), span, today),
        r.0.wf(),
        r.1.wf(),
{
    match span {
        Some(s) => s,
        None => {
            let ghost cv = commit_views(commits@);
            let mut first: Option<Date> = None;
            let mut last: Option<Date> = None;
            let mut i: usize = 0;
            while i < commits.len()
                invariant
                    i <= commits.len(),
                    cv == commit_views(commits@),
                    commits_wf(cv),
                    first == first_day(cv, i as int),
                    last == last_day(cv, i as int),
                    first matches Some(d) ==> d.wf(),
                    last matches Some(d) ==> d.wf(),
                decreases commits.len() - i,
            {
                assert(cv[i as int] == commits@[i as int]@);
                let c = commits[i].day;
                assert(c.wf());
                first = match first {
                    Some(d) => if c.is_before(d) {
                        Some(c)
                    } else {
                        Some(d)
                    },
                    None => Some(c),
                };
                last = match last {
                    Some(d) => if d.is_before(c) {
                        Some(c)
                    } else {
                        Some(d)
                    },
                    None => Some(c),
                };
                i += 1;
            }
            (
                match first {
                    Some(d) => d,
                    None => today,
                },
                match last {
                    Some(d) => d,
                    None => today,
                },
            )
        },
    }
}

/// Draws the commits over `days`.
pub fn draw(
    commits: &Vec<Commit>,
    days: (Date, Date),
    received: usize,
    expected: usize,
    skipped: usize,
) -> (r: StatsView)
    requires
        days.0.wf(),
        days.1.wf(),
        drawable(days),
        commits_wf(commit_views(commits@)),
        all_paths(commit_views(commits@)).len() <= usize::MAX,
    ensures
        draws(r, commit_views(commits@), days),
        r.received == received,
        r.expected == expected,
        r.skipped == skipped,
{
    let (buckets, gran) = bucketize(commits, days.0, days.1);
    StatsView {
        buckets,
        gran,
        totals: totals(commits),
        heat: build_heat(commits, days.0, days.1),
        days: Some(days),
        received,
        expected,
        skipped,
    }
}

proof fn lemma_flat_step(all: Seq<(usize, Vec<LogEntry>)>, n: int)
    requires
        0 <= n < all.len(),
    ensures
        flat(all.take(n + 1)).len() == flat(all.take(n)).len() + all[n].1@.len(),
{
    let t = all.take(n + 1);
    assert(t.drop_last() =~= all.take(n));
    assert(t.last() == all[n]);
}

proof fn lemma_flat_grows(all: Seq<(usize, Vec<LogEntry>)>, n: int)
    requires
        0 <= n <= all.len(),
    ensures
        flat(all.take(n)).len() <= flat(all).len(),
    decreases all.len() - n,
{
    if n < all.len() {
        lemma_flat_step(all, n);
        lemma_flat_grows(all, n + 1);
    } else {
        assert(all.take(n) =~= all);
    }
}

/// Whether the records can be counted.
fn countable(all: &Vec<(usize, Vec<LogEntry>)>) -> (r: bool)
    ensures
        r == (flat(all@).len() <= usize::MAX),
{
    let mut total: usize = 0;
    let mut i: usize = 0;
    assert(all@.take(0) =~= Seq::empty());
    while i < all.len()
        invariant
            i <= all.len(),
            total == flat(all@.take(i as int)).len(),
        decreases all.len() - i,
    {
        proof {
            lemma_flat_step(all@, i as int);
            lemma_flat_grows(all@, i + 1);
        }
        let n = all[i].1.len();
        if total > usize::MAX - n {
            return false;
        }
        total = total + n;
        i += 1;
    }
    assert(all@.take(i as int) =~= all@);
    true
}

proof fn lemma_paths_step(cv: Seq<CommitView>, n: int)
    requires
        0 <= n < cv.len(),
    ensures
        all_paths(cv.take(n + 1)).len() == all_paths(cv.take(n)).len() + cv[n].paths.len(),
{
    let t = cv.take(n + 1);
    assert(t.drop_last() =~= cv.take(n));
    assert(t.last() == cv[n]);
}

proof fn lemma_paths_grow(cv: Seq<CommitView>, n: int)
    requires
        0 <= n <= cv.len(),
    ensures
        all_paths(cv.take(n)).len() <= all_paths(cv).len(),
    decreases cv.len() - n,
{
    if n < cv.len() {
        lemma_paths_step(cv, n);
        lemma_paths_grow(cv, n + 1);
    } else {
        assert(cv.take(n) =~= cv);
    }
}

/// Whether the paths of the commits can be counted.
fn paths_countable(commits: &Vec<Commit>) -> (r: bool)
    ensures
        r == (all_paths(commit_views(commits@)).len() <= usize::MAX),
{
    let ghost cv = commit_views(commits@);
    let mut total: usize = 0;
    let mut i: usize = 0;
    assert(cv.take(0) =~= Seq::empty());
    while i < commits.len()
        invariant
            i <= commits.len(),
            cv == commit_views(commits@),
            total == all_paths(cv.take(i as int)).len(),
        decreases commits.len() - i,
    {
        proof {
            lemma_paths_step(cv, i as int);
            lemma_paths_grow(cv, i + 1);
        }
        let n = commits[i].paths.len();
        assert(cv[i as int].paths.len() == n);
        if total > usize::MAX - n {
            return false;
        }
        total = total + n;
        i += 1;
    }
    assert(cv.take(i as int) =~= cv);
    true
}

fn can_draw(days: (Date, Date)) -> (r: bool)
    requires
        days.0.wf(),
        days.1.wf(),
    ensures
        r == drawable(days),
{
    if days.1.is_before(days.0) {
        return false;
    }
    if days.1.days_since(days.0) + 1 > HEATMAP_DAY_LIMIT {
        return days.1.year != date::LAST_YEAR || days.1.month != 12;
    }
    let lead = days.0.since_monday() as i64;
    let tail: i64 = 6 - days.1.since_monday() as i64;
    proof {
        date::lemma_number_range(days.0);
        date::lemma_number_range(days.1);
    }
    match (days.0.shifted(-lead), days.1.shifted(tail)) {
        (Some(a), Some(b)) => {
            proof {
                date::lemma_number_range(a);
                date::lemma_number_range(b);
            }
            true
        },
        _ => false,
    }
}

/// What was read can be counted and drawn.
pub open spec fn can_show(
    done: Seq<(usize, Vec<LogEntry>)>,
    span: Option<(Date, Date)>,
    today: Date,
) -> bool {
    let commits = collected(done, span);
    &&& flat(done).len() <= usize::MAX
    &&& all_paths(commits).len() <= usize::MAX
    &&& drawable(charted(commits, span, today))
}

impl StatsPage {
    /// The page as it opens: all directories, the last thirty days, as bars.
    pub open spec fn opens(self) -> bool {
        &&& self.dir == ALL_DIRS
        &&& self.range == RangePreset::Month
        &&& self.custom_from@.len() == 0
        &&& self.custom_to@.len() == 0
        &&& self.chart == ChartKind::Bar
        &&& self.epoch == 0
        &&& self.expected@.len() == 0
        &&& self.done@.len() == 0
        &&& self.failed@.len() == 0
        &&& self.error@.len() == 0
        &&& self.span is None
        &&& self.revspec@.len() == 0
        &&& self.author@.len() == 0
        &&& self.view.blank(0)
    }

    /// The page as it opens: all directories, the last thirty days, as bars.
    pub fn new() -> (r: StatsPage)
        ensures
            r.opens(),
    {
        StatsPage {
            dir: ALL_DIRS,
            range: RangePreset::Month,
            custom_from: String::new(),
            custom_to: String::new(),
            chart: ChartKind::Bar,
            epoch: 0,
            expected: Vec::new(),
            done: Vec::new(),
            failed: Vec::new(),
            error: String::new(),
            span: None,
            revspec: String::new(),
            author: String::new(),
            view: StatsView::default(),
        }
    }

    /// The range that the page stands for now, or why it stands for none.
    pub fn resolve(&self, today: Date) -> (r: Result<Option<(Date, Date)>, String>)
        requires
            today.wf(),
            today.number() - 364 >= date::first_number(),
        ensures
            crate::stats::same_range(
                r,
                range_for(self.range, self.custom_from@, self.custom_to@, today),
            ),
            r matches Ok(span) ==> date::span_wf(span),
            r matches Ok(Some(span)) ==> span.0.number() <= span.1.number(),
    {
        resolve_range(self.range, self.custom_from.as_str(), self.custom_to.as_str(), today)
    }

    /// Draws what was read so far anew. Returns whether that could be done; what touches the ends
    /// of the calendar is left as it was.
    pub fn recalc(&mut self, today: Date) -> (r: bool)
        requires
            today.wf(),
            date::span_wf(old(self).span),
            old(self).done@.len() + old(self).failed@.len() <= usize::MAX,
        ensures
            r == can_show(old(self).done@, old(self).span, today),
            !r ==> *final(self) == *old(self),
            r ==> ({
                let commits = collected(old(self).done@, old(self).span);
                &&& draws(final(self).view, commits, charted(commits, old(self).span, today))
                &&& final(self).view.received == old(self).done@.len() + old(self).failed@.len()
                &&& final(self).view.expected == old(self).expected@.len()
                &&& final(self).view.skipped == undated(
                    flat(old(self).done@),
                    flat(old(self).done@).len() as int,
                )
                &&& *final(self) == (StatsPage { view: final(self).view, ..*old(self) })
            }),
    {
        if !countable(&self.done) {
            return false;
        }
        let (commits, skipped) = collect(&self.done, self.span);
        if !paths_countable(&commits) {
            return false;
        }
        let days = day_range(&commits, self.span, today);
        if !can_draw(days) {
            return false;
        }
        let received = self.done.len() + self.failed.len();
        self.view = draw(&commits, days, received, self.expected.len(), skipped);
        true
    }
}

// ---------------------------------------------------------------- asking

/// How a query begins.
#[derive(Debug)]
pub enum Start {
    /// The range is wrong; the text says why.
    Refused(String),
    /// It is not known whose commits to count.
    NoUser,
    /// The range touches the ends of the calendar.
    TooFar,
    /// These directories have to be asked.
    Go(Vec<usize>),
}

/// The directories that a query asks, of `dirs` in all.
pub open spec fn asked(dir: usize, dirs: usize) -> Seq<usize> {
    if dir == ALL_DIRS {
        Seq::new(dirs as nat, |i: int| i as usize)
    } else if dir < dirs {
        seq![dir]
    } else {
        Seq::empty()
    }
}

/// The revisions for these days can be asked for.
pub open spec fn span_fits(span: Option<(Date, Date)>) -> bool {
    span matches Some(s) ==> date::first_number() < s.0.number() && s.1.number() + 2
        <= date::last_number()
}

/// Whether the revisions for these days can be asked for.
pub fn fits_calendar(span: Option<(Date, Date)>) -> (r: bool)
    requires
        date::span_wf(span),
    ensures
        r == span_fits(span),
{
    match span {
        None => true,
        Some((from, to)) => match (from.shifted(-1), to.shifted(2)) {
            (Some(a), Some(b)) => {
                proof {
                    date::lemma_number_range(a);
                    date::lemma_number_range(b);
                }
                true
            },
            _ => {
                proof {
                    date::lemma_number_range(from);
                    date::lemma_number_range(to);
                }
                false
            },
        },
    }
}

fn directories(dir: usize, dirs: usize) -> (r: Vec<usize>)
    ensures
        r@ == asked(dir, dirs),
{
    let mut r: Vec<usize> = Vec::new();
    if dir == ALL_DIRS {
        let mut i: usize = 0;
        while i < dirs
            invariant
                i <= dirs,
                r@ == Seq::new(i as nat, |k: int| k as usize),
            decreases dirs - i,
        {
            r.push(i);
            i += 1;
            assert(r@ =~= Seq::new(i as nat, |k: int| k as usize));
        }
    } else if dir < dirs {
        r.push(dir);
        assert(r@ =~= seq![dir]);
    }
    r
}

fn same_list(list: &Vec<usize>) -> (r: Vec<usize>)
    ensures
        r@ == list@,
{
    let r = list.clone();
    assert(r@ =~= list@);
    r
}

impl StatsPage {
    /// From `self` to `after`: a query for the commits of `user` began as `r` says, with `dirs`
    /// directories in the list.
    pub open spec fn started(
        self,
        dirs: usize,
        user: Seq<char>,
        today: Date,
        after: StatsPage,
        r: Start,
    ) -> bool {
        match range_for(self.range, self.custom_from@, self.custom_to@, today) {
            Err(e) => {
                &&& r matches Start::Refused(t) && t@ == e
                &&& after.error@ == e
                &&& after.expected@.len() == 0
                &&& after.done@.len() == 0
                &&& after.failed@.len() == 0
                &&& after.view.blank(0)
                &&& after == (StatsPage {
                    epoch: (self.epoch + 1) as u64,
                    error: after.error,
                    expected: after.expected,
                    done: after.done,
                    failed: after.failed,
                    view: after.view,
                    ..self
                })
            },
            Ok(span) => if text::trim(user).len() == 0 {
                &&& r is NoUser
                &&& after.expected@.len() == 0
                &&& after.done@.len() == 0
                &&& after.failed@.len() == 0
                &&& after.revspec@.len() == 0
                &&& after.view.blank(0)
                &&& after == (StatsPage {
                    epoch: (self.epoch + 1) as u64,
                    expected: after.expected,
                    done: after.done,
                    failed: after.failed,
                    revspec: after.revspec,
                    view: after.view,
                    ..self
                })
            } else if !span_fits(span) {
                r is TooFar && after == self
            } else {
                &&& r matches Start::Go(list) && list@ == asked(self.dir, dirs)
                &&& after.expected@ == asked(self.dir, dirs)
                &&& after.done@.len() == 0
                &&& after.failed@.len() == 0
                &&& after.error@.len() == 0
                &&& after.revspec@ == revisions_for(span)
                &&& after.author@ == text::trim(user)
                &&& after.view.blank(asked(self.dir, dirs).len() as int)
                &&& after == (StatsPage {
                    epoch: (self.epoch + 1) as u64,
                    expected: after.expected,
                    done: after.done,
                    failed: after.failed,
                    error: after.error,
                    span,
                    revspec: after.revspec,
                    author: after.author,
                    view: after.view,
                    ..self
                })
            },
        }
    }

    /// Begins a query for the commits of `user` in the directories of the list. Answers to the
    /// query before it are late from then on, also where the conditions allow none.
    pub fn start(&mut self, dirs: usize, user: &str, today: Date) -> (r: Start)
        requires
            today.wf(),
            today.number() - 364 >= date::first_number(),
            old(self).epoch < u64::MAX,
        ensures
            old(self).started(dirs, user@, today, *final(self), r),
            date::span_wf(old(self).span) ==> date::span_wf(final(self).span),
    {
        let span = match self.resolve(today) {
            Ok(span) => span,
            Err(message) => {
                self.epoch = self.epoch + 1;
                self.error = message.clone();
                self.expected = Vec::new();
                self.done = Vec::new();
                self.failed = Vec::new();
                self.view = StatsView::default();
                return Start::Refused(message);
            },
        };
        let author = text::trimmed(user);
        if author.as_str().is_empty() {
            self.epoch = self.epoch + 1;
            self.expected = Vec::new();
            self.done = Vec::new();
            self.failed = Vec::new();
            self.view = StatsView::default();
            self.revspec = String::new();
            return Start::NoUser;
        }
        if !fits_calendar(span) {
            return Start::TooFar;
        }
        let targets = directories(self.dir, dirs);
        self.epoch = self.epoch + 1;
        self.span = span;
        self.revspec = revspec(span);
        self.author = author;
        self.error = String::new();
        self.expected = same_list(&targets);
        self.done = Vec::new();
        self.failed = Vec::new();
        self.view = StatsView::waiting(targets.len());
        Start::Go(targets)
    }

    /// The text for a query that is complete.
    pub open spec fn finished(v: StatsView) -> Option<Seq<char>> {
        if v.expected > 0 && v.received >= v.expected {
            Some(
                "提交统计完成："@ + text::decimal(v.received as int) + " 个目录，共 "@
                    + text::decimal(v.totals.files as int) + " 条文件记录"@,
            )
        } else {
            None
        }
    }

    /// From `self` to `after`: one directory has answered. Answers to another query are dropped.
    pub open spec fn answered(
        self,
        dir: usize,
        epoch: u64,
        entries: Vec<LogEntry>,
        ok: bool,
        message: String,
        today: Date,
        after: StatsPage,
    ) -> bool {
        if epoch != self.epoch {
            after == self
        } else {
            let done = if ok {
                self.done@.push((dir, entries))
            } else {
                self.done@
            };
            let failed = if ok {
                self.failed@
            } else {
                self.failed@.push((dir, message))
            };
            let commits = collected(done, self.span);
            &&& after.done@ == done
            &&& after.failed@ == failed
            &&& if can_show(done, self.span, today) {
                &&& draws(after.view, commits, charted(commits, self.span, today))
                &&& after.view.received == done.len() + failed.len()
                &&& after.view.expected == self.expected@.len()
                &&& after.view.skipped == undated(flat(done), flat(done).len() as int)
            } else {
                after.view == self.view
            }
            &&& after == (StatsPage {
                done: after.done,
                failed: after.failed,
                view: after.view,
                ..self
            })
        }
    }

    /// Takes in the answer of one directory; answers to another query are dropped. Returns what to
    /// say once all have answered.
    pub fn apply(
        &mut self,
        dir: usize,
        epoch: u64,
        entries: Vec<LogEntry>,
        ok: bool,
        message: String,
        today: Date,
    ) -> (r: Option<String>)
        requires
            today.wf(),
            date::span_wf(old(self).span),
            old(self).done@.len() + old(self).failed@.len() < usize::MAX,
        ensures
            old(self).answered(dir, epoch, entries, ok, message, today, *final(self)),
            match r {
                Some(t) => epoch == old(self).epoch && StatsPage::finished(final(self).view) == Some(
                    t@,
                ),
                None => epoch != old(self).epoch || StatsPage::finished(final(self).view) is None,
            },
    {
        if self.epoch != epoch {
            return None;
        }
        if ok {
            self.done.push((dir, entries));
        } else {
            self.failed.push((dir, message));
        }
        let _ = self.recalc(today);
        if self.view.expected > 0 && self.view.received >= self.view.expected {
            let n = text::count(self.view.received);
            let files = text::count(self.view.totals.files);
            let mut t = text::join3("提交统计完成：", n.as_str(), " 个目录，共 ");
            t.append(files.as_str());
            t.append(" 条文件记录");
            Some(t)
        } else {
            None
        }
    }
}

/// Once the conditions have changed, what comes in for an earlier query changes nothing.
pub proof fn law_answers_to_an_earlier_query_are_dropped(
    page: StatsPage,
    dirs: usize,
    user: Seq<char>,
    now: Date,
    next: StatsPage,
    begun: Start,
    dir: usize,
    epoch: u64,
    entries: Vec<LogEntry>,
    ok: bool,
    message: String,
    today: Date,
    last: StatsPage,
)
    requires
        page.epoch < u64::MAX,
        page.started(dirs, user, now, next, begun),
        begun !is TooFar,
        epoch <= page.epoch,
        next.answered(dir, epoch, entries, ok, message, today, last),
    ensures
        last == next,
{
}

// ---------------------------------------------------------------- where a click leads

/// How many paths the first `n` commits of a directory hold.
pub open spec fn paths_in(commits: Seq<CommitView>, dir: usize, n: int) -> int
    decreases n,
{
    if n <= 0 {
        0
    } else {
        paths_in(commits, dir, n - 1) + if commits[n - 1].dir == dir {
            commits[n - 1].paths.len() as int
        } else {
            0
        }
    }
}

/// `dir` has the most paths of all directories with a commit; of those with as many, the first in
/// the list.
pub open spec fn is_busiest(commits: Seq<CommitView>, dir: usize) -> bool {
    let n = commits.len() as int;
    &&& exists|i: int| 0 <= i < n && (#[trigger] commits[i]).dir == dir
    &&& forall|j: int|
        0 <= j < n ==> ({
            let other = (#[trigger] commits[j]).dir;
            paths_in(commits, other, n) < paths_in(commits, dir, n) || (paths_in(commits, other, n)
                == paths_in(commits, dir, n) && dir <= other)
        })
}

fn paths_of(commits: &Vec<Commit>, dir: usize) -> (r: u128)
    ensures
        r == paths_in(commit_views(commits@), dir, commits@.len() as int),
{
    let ghost cv = commit_views(commits@);
    let mut total: u128 = 0;
    let mut i: usize = 0;
    while i < commits.len()
        invariant
            i <= commits.len(),
            cv == commit_views(commits@),
            total == paths_in(cv, dir, i as int),
            total <= i * usize::MAX,
        decreases commits.len() - i,
    {
        assert(cv[i as int].dir == commits@[i as int].dir);
        let n = commits[i].paths.len();
        assert(cv[i as int].paths.len() == n);
        assert((i + 1) * usize::MAX == i * usize::MAX + usize::MAX) by (nonlinear_arith);
        assert(i * usize::MAX + usize::MAX <= u128::MAX) by (nonlinear_arith)
            requires
                i < usize::MAX,
                usize::MAX <= u64::MAX,
        ;
        if commits[i].dir == dir {
            total = total + n as u128;
        }
        i += 1;
    }
    total
}

/// The directory with the most paths; none where there is no commit.
pub fn busiest(commits: &Vec<Commit>) -> (r: Option<usize>)
    ensures
        match r {
            Some(dir) => is_busiest(commit_views(commits@), dir),
            None => commits@.len() == 0,
        },
{
    let ghost cv = commit_views(commits@);
    if commits.len() == 0 {
        return None;
    }
    let mut best = commits[0].dir;
    let mut most = paths_of(commits, best);
    let mut seen: Vec<usize> = Vec::new();
    seen.push(best);
    let mut i: usize = 1;
    assert(cv[0].dir == best);
    assert(seen@[0] == best);
    while i < commits.len()
        invariant
            1 <= i <= commits.len(),
            cv == commit_views(commits@),
            most == paths_in(cv, best, cv.len() as int),
            exists|k: int| 0 <= k < cv.len() && (#[trigger] cv[k]).dir == best,
            forall|j: int| 0 <= j < i ==> seen@.contains((#[trigger] cv[j]).dir),
            forall|s: int|
                0 <= s < seen@.len() ==> ({
                    let other = #[trigger] seen@[s];
                    paths_in(cv, other, cv.len() as int) < most || (paths_in(
                        cv,
                        other,
                        cv.len() as int,
                    ) == most && best <= other)
                }),
        decreases commits.len() - i,
    {
        let dir = commits[i].dir;
        assert(cv[i as int].dir == dir);
        if !crate::history::lists(&seen, dir) {
            let n = paths_of(commits, dir);
            let ghost before = seen@;
            seen.push(dir);
            assert(seen@[before.len() as int] == dir);
            assert forall|j: int| 0 <= j < i implies seen@.contains((#[trigger] cv[j]).dir) by {
                let s = choose|s: int| 0 <= s < before.len() && before[s] == cv[j].dir;
                assert(seen@[s] == cv[j].dir);
            }
            assert forall|s: int| 0 <= s < before.len() implies seen@[s] == #[trigger] before[s] by {}
            if n > most || (n == most && dir < best) {
                best = dir;
                most = n;
            }
        }
        i += 1;
    }
    assert(is_busiest(cv, best)) by {
        assert forall|j: int| 0 <= j < cv.len() implies ({
            let other = (#[trigger] cv[j]).dir;
            paths_in(cv, other, cv.len() as int) < paths_in(cv, best, cv.len() as int) || (
            paths_in(cv, other, cv.len() as int) == paths_in(cv, best, cv.len() as int) && best
                <= other)
        }) by {
            let s = choose|s: int| 0 <= s < seen@.len() && seen@[s] == cv[j].dir;
            assert(seen@[s] == cv[j].dir);
        }
    }
    Some(best)
}

/// There is at most one busiest directory.
pub proof fn law_busiest_is_unique(commits: Seq<CommitView>, a: usize, b: usize)
    requires
        is_busiest(commits, a),
        is_busiest(commits, b),
    ensures
        a == b,
{
    let i = choose|i: int| 0 <= i < commits.len() && (#[trigger] commits[i]).dir == a;
    let j = choose|j: int| 0 <= j < commits.len() && (#[trigger] commits[j]).dir == b;
    assert(commits[i].dir == a && commits[j].dir == b);
}

/// `list` holds the directories other than `dir` that have a commit: in order, and each of them
/// once.
pub open spec fn are_others(commits: Seq<CommitView>, dir: usize, list: Seq<usize>) -> bool {
    &&& rising(list)
    &&& forall|k: int|
        0 <= k < commits.len() && (#[trigger] commits[k]).dir != dir ==> list.contains(
            commits[k].dir,
        )
    &&& forall|i: int|
        0 <= i < list.len() ==> #[trigger] list[i] != dir && has_commit(commits, list[i])
}

/// Directory `dir` has a commit.
pub open spec fn has_commit(commits: Seq<CommitView>, dir: usize) -> bool {
    exists|k: int| 0 <= k < commits.len() && (#[trigger] commits[k]).dir == dir
}

/// Each number in `list` is greater than the one before it.
pub open spec fn rising(list: Seq<usize>) -> bool {
    forall|i: int, j: int| 0 <= i < j < list.len() ==> #[trigger] list[i] < #[trigger] list[j]
}

fn enter(list: &mut Vec<usize>, d: usize)
    requires
        rising(old(list)@),
    ensures
        rising(final(list)@),
        forall|x: usize| #[trigger]
            final(list)@.contains(x) <==> old(list)@.contains(x) || x == d,
{
    let ghost before = list@;
    let mut i: usize = 0;
    while i < list.len() && list[i] < d
        invariant
            i <= list.len(),
            list@ == before,
            rising(before),
            forall|j: int| 0 <= j < i ==> #[trigger] before[j] < d,
        decreases list.len() - i,
    {
        i += 1;
    }
    if i < list.len() && list[i] == d {
        assert(before[i as int] == d);
        return;
    }
    list.insert(i, d);
    proof {
        let after = list@;
        assert(after[i as int] == d);
        assert forall|x: usize| #[trigger] after.contains(x) <==> before.contains(x) || x == d by {
            if before.contains(x) {
                let k = choose|k: int| 0 <= k < before.len() && before[k] == x;
                assert(after[if k < i { k } else { k + 1 }] == x);
            }
            if after.contains(x) && x != d {
                let k = choose|k: int| 0 <= k < after.len() && after[k] == x;
                assert(before[if k < i { k } else { k - 1 }] == x);
            }
        }
        assert forall|a: int, b: int| 0 <= a < b < after.len() implies #[trigger] after[a]
            < #[trigger] after[b] by {
            if a < i && b > i {
                assert(before[a] < d);
                assert(before[a] < before[b - 1]);
            } else if a == i {
                assert(before[b - 1] == after[b]);
                assert(before[i as int] > d);
            } else if b < i {
                assert(before[a] < before[b]);
            } else if a > i {
                assert(before[a - 1] < before[b - 1]);
            }
        }
    }
}

/// The directories other than `dir` that have a commit, in order.
pub fn others(commits: &Vec<Commit>, dir: usize) -> (r: Vec<usize>)
    ensures
        are_others(commit_views(commits@), dir, r@),
{
    let ghost cv = commit_views(commits@);
    let mut list: Vec<usize> = Vec::new();
    let mut i: usize = 0;
    while i < commits.len()
        invariant
            i <= commits.len(),
            cv == commit_views(commits@),
            rising(list@),
            forall|k: int|
                0 <= k < i && (#[trigger] cv[k]).dir != dir ==> list@.contains(cv[k].dir),
            forall|x: usize| #[trigger] list@.contains(x) ==> x != dir && has_commit(cv, x),
        decreases commits.len() - i,
    {
        let d = commits[i].dir;
        assert(cv[i as int].dir == d);
        if d != dir {
            enter(&mut list, d);
        }
        i += 1;
    }
    assert forall|j: int| 0 <= j < list@.len() implies #[trigger] list@[j] != dir && has_commit(
        cv,
        list@[j],
    ) by {
        assert(list@.contains(list@[j]));
    }
    list
}

/// Days in words.
pub open spec fn days_text(span: (Date, Date)) -> Seq<char> {
    if span.0 == span.1 {
        date::date_text(span.0)
    } else {
        date::date_text(span.0) + " ~ "@ + date::date_text(span.1)
    }
}

/// Days in words.
pub fn days_line(span: (Date, Date)) -> (r: String)
    requires
        span.0.wf(),
        span.1.wf(),
    ensures
        r@ == days_text(span),
{
    let a = span.0.to_text();
    if span.0 == span.1 {
        return a;
    }
    let b = span.1.to_text();
    text::join3(a.as_str(), " ~ ", b.as_str())
}

/// What to say once a click has led to a directory; `others` are the labels of the directories
/// that were committed to then as well.
pub open spec fn drill_text(label: Seq<char>, span: (Date, Date), others: Seq<Seq<char>>) -> Seq<
    char,
> {
    let opened = "已打开「"@ + label + "」的提交记录："@ + days_text(span);
    if others.len() == 0 {
        opened
    } else {
        opened + "（当天多个目录都有提交，已跳到文件最多的那个。还有："@ + text::joined(
            others,
            "、"@,
        ) + "）"@
    }
}

/// What to say once a click has led to a directory.
pub fn drill_line(label: &str, span: (Date, Date), others: &Vec<String>) -> (r: String)
    requires
        span.0.wf(),
        span.1.wf(),
    ensures
        r@ == drill_text(label@, span, text::views(others@)),
{
    let days = days_line(span);
    let mut t = text::join3("已打开「", label, "」的提交记录：");
    t.append(days.as_str());
    if others.len() > 0 {
        let names = text::join_with(others, "、");
        t.append("（当天多个目录都有提交，已跳到文件最多的那个。还有：");
        t.append(names.as_str());
        t.append("）");
    }
    t
}

impl StatsPage {
    /// The directory that a click on `span` leads to, and the other directories with a commit then;
    /// none where nothing was committed then, or more than can be counted. Where the page shows one
    /// directory, that is the one.
    pub fn drill(&self, span: (Date, Date)) -> (r: Option<(usize, Vec<usize>)>)
        requires
            span.0.wf(),
            span.1.wf(),
        ensures
            self.dir != ALL_DIRS ==> (r matches Some(d) && d.0 == self.dir && d.1@.len() == 0),
            self.dir == ALL_DIRS ==> match r {
                Some(d) => is_busiest(collected(self.done@, Some(span)), d.0) && are_others(
                    collected(self.done@, Some(span)),
                    d.0,
                    d.1@,
                ),
                None => collected(self.done@, Some(span)).len() == 0 || flat(self.done@).len()
                    > usize::MAX,
            },
    {
        if self.dir != ALL_DIRS {
            return Some((self.dir, Vec::new()));
        }
        if !countable(&self.done) {
            return None;
        }
        let (commits, _) = collect(&self.done, Some(span));
        assert(commit_views(commits@).len() == commits@.len());
        match busiest(&commits) {
            Some(dir) => Some((dir, others(&commits, dir))),
            None => None,
        }
    }
}

// ---------------------------------------------------------------- what the page says

/// The highest of the first `n` buckets.
pub open spec fn highest(buckets: Seq<BucketView>, n: int) -> int
    decreases n,
{
    if n <= 0 {
        0
    } else if buckets[n - 1].files > highest(buckets, n - 1) {
        buckets[n - 1].files
    } else {
        highest(buckets, n - 1)
    }
}

/// The highest bucket.
pub fn peak(buckets: &Vec<Bucket>) -> (r: usize)
    ensures
        r == highest(bucket_views(buckets@), buckets@.len() as int),
{
    let ghost bv = bucket_views(buckets@);
    let mut top: usize = 0;
    let mut i: usize = 0;
    while i < buckets.len()
        invariant
            i <= buckets.len(),
            bv == bucket_views(buckets@),
            top == highest(bv, i as int),
        decreases buckets.len() - i,
    {
        assert(bv[i as int].files == buckets@[i as int].files);
        if buckets[i].files > top {
            top = buckets[i].files;
        }
        i += 1;
    }
    top
}

/// How the page says whose commits are counted.
pub fn user_line(user: &str) -> (r: String)
    ensures
        r@ == (if text::trim(user@).len() == 0 {
            "本机 svn 登录人待探测"@
        } else {
            "本人："@ + user@
        }),
{
    if text::blank(user) {
        "本机 svn 登录人待探测".to_owned()
    } else {
        text::join2("本人：", user)
    }
}

/// How the page says how many directories have answered.
pub fn answered_line(v: &StatsView) -> (r: String)
    ensures
        r@ == "已回 "@ + text::decimal(v.received as int) + " / "@ + text::decimal(
            v.expected as int,
        ) + " 个目录"@,
{
    let a = text::count(v.received);
    let b = text::count(v.expected);
    let mut t = text::join3("已回 ", a.as_str(), " / ");
    t.append(b.as_str());
    t.append(" 个目录");
    t
}

/// What the page says where there is no chart, or an empty one.
pub open spec fn chart_note(
    loading: bool,
    received: int,
    buckets: int,
    files: int,
    chart: ChartKind,
) -> Option<Seq<char>> {
    if loading && received == 0 {
        Some("正在读取服务器提交记录 …"@)
    } else if buckets == 0 {
        Some("还没有可画的数据：等目录读回来，或换个区间再查。"@)
    } else if files == 0 && chart != ChartKind::Heatmap {
        Some(
            "这个区间内没有本人的提交：可以换更宽的区间，或选「全部目录（合并）」。"@,
        )
    } else {
        None
    }
}

/// What the page says under a chart of its query.
pub open spec fn query_text(
    span: Option<(Date, Date)>,
    revs: Seq<char>,
    author: Seq<char>,
) -> Seq<char> {
    "统计区间 "@ + (match span {
        Some(s) => days_text(s),
        None => "全部提交史"@,
    }) + "    $ svn log -v -r "@ + revs + " --search "@ + if author.len() == 0 {
        "（无人）"@
    } else {
        author
    } + " --xml <目录>@HEAD"@
}

impl StatsPage {
    /// What the page says where there is no chart, or an empty one.
    pub fn note(&self, loading: bool) -> (r: Option<&'static str>)
        ensures
            match r {
                Some(t) => chart_note(
                    loading,
                    self.view.received as int,
                    self.view.buckets@.len() as int,
                    self.view.totals.files as int,
                    self.chart,
                ) == Some(t@),
                None => chart_note(
                    loading,
                    self.view.received as int,
                    self.view.buckets@.len() as int,
                    self.view.totals.files as int,
                    self.chart,
                ) is None,
            },
    {
        if loading && self.view.received == 0 {
            Some("正在读取服务器提交记录 …")
        } else if self.view.buckets.len() == 0 {
            Some("还没有可画的数据：等目录读回来，或换个区间再查。")
        } else if self.view.totals.files == 0 && self.chart != ChartKind::Heatmap {
            Some("这个区间内没有本人的提交：可以换更宽的区间，或选「全部目录（合并）」。")
        } else {
            None
        }
    }

    /// What the page says of its query; nothing before the first one.
    pub fn query_line(&self) -> (r: Option<String>)
        requires
            date::span_wf(self.span),
        ensures
            match r {
                Some(t) => self.revspec@.len() > 0 && t@ == query_text(
                    self.span,
                    self.revspec@,
                    self.author@,
                ),
                None => self.revspec@.len() == 0,
            },
    {
        if self.revspec.as_str().is_empty() {
            return None;
        }
        let days = match self.span {
            Some(s) => days_line(s),
            None => "全部提交史".to_owned(),
        };
        let mut t = text::join3("统计区间 ", days.as_str(), "    $ svn log -v -r ");
        t.append(self.revspec.as_str());
        t.append(" --search ");
        if self.author.as_str().is_empty() {
            t.append("（无人）");
        } else {
            t.append(self.author.as_str());
        }
        t.append(" --xml <目录>@HEAD");
        Some(t)
    }

    /// Lights a preset. Returns whether to ask anew; a range of one's own is asked for only once
    /// its dates are typed.
    pub fn pick(&mut self, preset: RangePreset) -> (r: bool)
        ensures
            r == (old(self).range != preset && preset != RangePreset::Custom),
            *final(self) == (StatsPage { range: preset, ..*old(self) }),
    {
        let changed = self.range != preset;
        self.range = preset;
        changed && preset != RangePreset::Custom
    }

    /// Picks a directory. Returns whether to ask anew.
    pub fn pick_dir(&mut self, dir: usize) -> (r: bool)
        ensures
            r == (old(self).dir != dir),
            *final(self) == (StatsPage { dir, ..*old(self) }),
    {
        let changed = self.dir != dir;
        self.dir = dir;
        changed
    }
}

/// The legend of a chart of lines or bars.
pub open spec fn legend_text(gran: Granularity, buckets: int, top: int, bars: bool) -> Seq<char> {
    gran.title() + "（"@ + text::decimal(buckets) + " 格，左轴上限 "@ + text::decimal(top)
        + "，橙色"@ + if bars {
        "柱子"@
    } else {
        "折线"@
    } + "按自身峰值归一化）"@
}

/// The legend of a chart of lines or bars. `top` is the upper end of its axis.
pub fn legend_line(gran: Granularity, buckets: usize, top: usize, bars: bool) -> (r: String)
    ensures
        r@ == legend_text(gran, buckets as int, top as int, bars),
{
    let n = text::count(buckets);
    let m = text::count(top);
    let mut t = text::join3(gran.label(), "（", n.as_str());
    t.append(" 格，左轴上限 ");
    t.append(m.as_str());
    t.append("，橙色");
    t.append(
        if bars {
            "柱子"
        } else {
            "折线"
        },
    );
    t.append("按自身峰值归一化）");
    t
}

/// What a heat map says beside its colours.
pub fn heat_note(mode: HeatMode) -> (r: &'static str)
    ensures
        r@ == (if mode == HeatMode::Day {
            "一格 = 一天，颜色 = 当天文件条目数，点一格跳到那天的提交记录"@
        } else {
            "跨度太大，已按「年 × 月」汇总：一格 = 一个月，点一格跳到那个月"@
        }),
{
    if mode == HeatMode::Day {
        "一格 = 一天，颜色 = 当天文件条目数，点一格跳到那天的提交记录"
    } else {
        "跨度太大，已按「年 × 月」汇总：一格 = 一个月，点一格跳到那个月"
    }
}

/// What a cell of a heat map says of its paths.
pub fn cell_line(files: usize) -> (r: String)
    ensures
        r@ == (if files == 0 {
            "没有提交"@
        } else {
            "文件条目数："@ + text::decimal(files as int)
        }),
{
    if files == 0 {
        "没有提交".to_owned()
    } else {
        let n = text::count(files);
        text::join2("文件条目数：", n.as_str())
    }
}

// ---------------------------------------------------------------- laws

proof fn lemma_days_met(commits: Seq<CommitView>, n: int)
    requires
        0 < n <= commits.len(),
    ensures
        exists|i: int| 0 <= i < n && Some((#[trigger] commits[i]).day) == first_day(commits, n),
        exists|i: int| 0 <= i < n && Some((#[trigger] commits[i]).day) == last_day(commits, n),
    decreases n,
{
    if n == 1 {
        assert(first_day(commits, 0) is None && last_day(commits, 0) is None);
        assert(Some(commits[0].day) == first_day(commits, 1));
        assert(Some(commits[0].day) == last_day(commits, 1));
    } else {
        lemma_days_met(commits, n - 1);
        lemma_days_cover(commits, n - 1);
        let i = choose|i: int|
            0 <= i < n - 1 && Some((#[trigger] commits[i]).day) == first_day(commits, n - 1);
        let j = choose|j: int|
            0 <= j < n - 1 && Some((#[trigger] commits[j]).day) == last_day(commits, n - 1);
        assert(Some(commits[i].day) == first_day(commits, n) || Some(commits[n - 1].day)
            == first_day(commits, n));
        assert(Some(commits[j].day) == last_day(commits, n) || Some(commits[n - 1].day)
            == last_day(commits, n));
    }
}

/// The charts cover the days that were asked for. Where all were, they run from the day of the
/// earliest commit to that of the latest one, and without a commit they show today.
pub proof fn law_charts_cover_no_more(commits: Seq<CommitView>, span: (Date, Date), today: Date)
    ensures
        charted(commits, Some(span), today) == span,
        commits.len() == 0 ==> charted(commits, None, today) == (today, today),
        commits.len() > 0 ==> {
            let days = charted(commits, None, today);
            &&& exists|i: int| 0 <= i < commits.len() && (#[trigger] commits[i]).day == days.0
            &&& exists|i: int| 0 <= i < commits.len() && (#[trigger] commits[i]).day == days.1
            &&& forall|i: int|
                0 <= i < commits.len() ==> days.0.number() <= (#[trigger] commits[i]).day.number()
                    <= days.1.number()
        },
{
    if commits.len() > 0 {
        let n = commits.len() as int;
        lemma_days_met(commits, n);
        lemma_days_cover(commits, n);
        let i = choose|i: int|
            0 <= i < n && Some((#[trigger] commits[i]).day) == first_day(commits, n);
        let j = choose|j: int|
            0 <= j < n && Some((#[trigger] commits[j]).day) == last_day(commits, n);
        assert(commits[i].day == charted(commits, None, today).0);
        assert(commits[j].day == charted(commits, None, today).1);
    }
}

/// A directory has as many paths as its own commits have together.
pub proof fn law_paths_of_a_directory(commits: Seq<CommitView>, dir: usize, n: int)
    requires
        0 <= n <= commits.len(),
    ensures
        paths_in(commits, dir, n) == commits.take(n).filter(
            |c: CommitView| c.dir == dir,
        ).fold_left(0int, |sum: int, c: CommitView| sum + c.paths.len()),
    decreases n,
{
    reveal(Seq::filter);
    let own = |c: CommitView| c.dir == dir;
    if n > 0 {
        law_paths_of_a_directory(commits, dir, n - 1);
        assert(commits.take(n).drop_last() =~= commits.take(n - 1));
        assert(commits.take(n).last() == commits[n - 1]);
        let before = commits.take(n - 1).filter(own);
        if own(commits[n - 1]) {
            let all = commits.take(n).filter(own);
            assert(all == before.push(commits[n - 1]));
            assert(all.drop_last() =~= before);
            assert(all.last() == commits[n - 1]);
        }
    }
}

/// The highest bucket is as high as one of them, and no bucket is higher.
pub proof fn law_peak_is_reached(buckets: Seq<BucketView>, n: int)
    requires
        0 <= n <= buckets.len(),
        forall|i: int| 0 <= i < buckets.len() ==> (#[trigger] buckets[i]).files >= 0,
    ensures
        forall|i: int| 0 <= i < n ==> (#[trigger] buckets[i]).files <= highest(buckets, n),
        n > 0 ==> exists|i: int| 0 <= i < n && (#[trigger] buckets[i]).files == highest(buckets, n),
    decreases n,
{
    if n > 0 {
        law_peak_is_reached(buckets, n - 1);
        if buckets[n - 1].files > highest(buckets, n - 1) {
            assert(buckets[n - 1].files == highest(buckets, n));
        } else if n == 1 {
            assert(buckets[0].files == highest(buckets, 1));
        } else {
            let i = choose|i: int|
                0 <= i < n - 1 && (#[trigger] buckets[i]).files == highest(buckets, n - 1);
            assert(buckets[i].files == highest(buckets, n));
        }
    }
}

/// A query over all directories asks each of them, in the order of the list; a query over one asks
/// that one, where it is in the list.
pub proof fn law_queries_ask_what_is_picked(dir: usize, dirs: usize, d: usize)
    ensures
        asked(dir, dirs).contains(d) <==> d < dirs && (dir == usize::MAX || d == dir),
        forall|i: int, j: int|
            0 <= i < j < asked(dir, dirs).len() ==> asked(dir, dirs)[i] < asked(dir, dirs)[j],
{
    let list = asked(dir, dirs);
    if dir == usize::MAX {
        if d < dirs {
            assert(list[d as int] == d);
        }
    } else if dir < dirs {
        assert(list[0] == dir);
    }
}

/// A query that begins, or is refused, forgets all answers and goes by a new number, so that
/// answers to an earlier one do not count. Without a name nothing is asked. Days that cannot be
/// asked for change nothing.
pub proof fn law_new_queries_begin_afresh(
    page: StatsPage,
    dirs: usize,
    user: Seq<char>,
    today: Date,
    after: StatsPage,
    r: Start,
)
    requires
        page.started(dirs, user, today, after, r),
        page.epoch < u64::MAX,
    ensures
        r !is TooFar ==> after.epoch == page.epoch + 1 && after.done@.len() == 0
            && after.failed@.len() == 0 && after.view.received == 0 && after.view.expected
            == after.expected@.len(),
        r is TooFar ==> after == page,
        r is Go ==> text::trim(user).len() > 0 && after.author@ == text::trim(user)
            && after.error@.len() == 0,
        r matches Start::Go(list) ==> list@ == after.expected@,
        r !is Go && r !is TooFar ==> after.expected@.len() == 0,
        r matches Start::Refused(t) ==> after.error@ == t@,
        after.dir == page.dir,
{
}

/// An answer to the query that runs is counted once, among what was read where the directory could
/// be read and among the failures where not, behind those that came before. What is told covers all
/// that came in, and once as many came in as were asked the query is done.
pub proof fn law_answers_are_counted(
    page: StatsPage,
    dir: usize,
    entries: Vec<LogEntry>,
    ok: bool,
    message: String,
    today: Date,
    after: StatsPage,
)
    requires
        page.answered(dir, page.epoch, entries, ok, message, today, after),
    ensures
        after.done@.len() + after.failed@.len() == page.done@.len() + page.failed@.len() + 1,
        ok ==> after.done@ == page.done@ + seq![(dir, entries)] && after.failed@ == page.failed@,
        !ok ==> after.failed@ == page.failed@ + seq![(dir, message)] && after.done@ == page.done@,
        after.epoch == page.epoch,
        after.expected == page.expected,
        can_show(after.done@, page.span, today) ==> after.view.received == after.done@.len()
            + after.failed@.len() && after.view.expected == page.expected@.len() && (
        StatsPage::finished(after.view) is Some <==> page.expected@.len() > 0 && after.done@.len()
            + after.failed@.len() >= page.expected@.len()),
{
    assert(page.done@.push((dir, entries)) =~= page.done@ + seq![(dir, entries)]);
    assert(page.failed@.push((dir, message)) =~= page.failed@ + seq![(dir, message)]);
}

/// The other directories of a click are all those with a commit but the one that it leads to, and
/// none without.
pub proof fn law_other_directories_have_commits(
    commits: Seq<CommitView>,
    dir: usize,
    list: Seq<usize>,
    d: usize,
)
    requires
        are_others(commits, dir, list),
    ensures
        list.contains(d) <==> d != dir && exists|k: int|
            0 <= k < commits.len() && (#[trigger] commits[k]).dir == d,
        forall|i: int, j: int| 0 <= i < j < list.len() ==> list[i] < list[j],
{
    if list.contains(d) {
        let i = choose|i: int| 0 <= i < list.len() && list[i] == d;
        assert(list[i] != dir && has_commit(commits, list[i]));
    }
}

} // verus!

