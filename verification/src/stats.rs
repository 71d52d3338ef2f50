//! Statistics of commits: which days they cover, what was committed, and how much.

use vstd::hash_set::StringHashSet;
use vstd::prelude::*;

use crate::date;
use crate::date::{parse_date, Date};
use crate::order;
use crate::svn::{log_views, LogEntry, LogPathView, LogView};
use crate::text;

verus! {

/// The place of a directory in the page that stands for all of them.
pub const ALL_DIRS: usize = usize::MAX;

// ---------------------------------------------------------------- conditions

/// A range of dates to choose.
#[derive(Clone, Copy, Debug, PartialEq, Eq, Structural)]
pub enum RangePreset {
    Today,
    Week,
    Month,
    Year,
    All,
    Custom,
}

impl RangePreset {
    /// What the range is called.
    pub open spec fn title(self) -> Seq<char> {
        match self {
            RangePreset::Today => "当天"@,
            RangePreset::Week => "一周"@,
            RangePreset::Month => "一个月"@,
            RangePreset::Year => "一年"@,
            RangePreset::All => "所有"@,
            RangePreset::Custom => "自定义"@,
        }
    }

    /// How many days before today the range begins; none where that is left to the caller.
    pub open spec fn reach(self) -> Option<i64> {
        match self {
            RangePreset::Today => Some(0),
            RangePreset::Week => Some(6),
            RangePreset::Month => Some(29),
            RangePreset::Year => Some(364),
            RangePreset::All => None,
            RangePreset::Custom => None,
        }
    }

    /// What the range covers, in words.
    pub open spec fn note(self) -> Seq<char> {
        match self {
            RangePreset::Today => "今天 00:00 到现在"@,
            RangePreset::Week => "含今天在内的最近 7 天"@,
            RangePreset::Month => "含今天在内的最近 30 天"@,
            RangePreset::Year => "含今天在内的最近 365 天"@,
            RangePreset::All => "不限日期，把每个目录的整个提交史全扫一遍：大仓库要等几十秒"@,
            RangePreset::Custom => "手填起止日期（含两端），填完点「查询」"@,
        }
    }

    /// The ranges, in the order in which they are offered.
    pub fn all() -> (r: [RangePreset; 6])
        ensures
            r@ == seq![
                RangePreset::Today,
                RangePreset::Week,
                RangePreset::Month,
                RangePreset::Year,
                RangePreset::All,
                RangePreset::Custom,
            ],
    {
        [
            RangePreset::Today,
            RangePreset::Week,
            RangePreset::Month,
            RangePreset::Year,
            RangePreset::All,
            RangePreset::Custom,
        ]
    }

    /// What the range is called.
    pub fn label(self) -> (r: &'static str)
        ensures
            r@ == self.title(),
    {
        match self {
            RangePreset::Today => "当天",
            RangePreset::Week => "一周",
            RangePreset::Month => "一个月",
            RangePreset::Year => "一年",
            RangePreset::All => "所有",
            RangePreset::Custom => "自定义",
        }
    }

    /// How many days before today the range begins.
    pub fn back_days(self) -> (r: Option<i64>)
        ensures
            r == self.reach(),
    {
        match self {
            RangePreset::Today => Some(0),
            RangePreset::Week => Some(6),
            RangePreset::Month => Some(29),
            RangePreset::Year => Some(364),
            RangePreset::All => None,
            RangePreset::Custom => None,
        }
    }

    /// What the range covers, in words.
    pub fn hover(self) -> (r: &'static str)
        ensures
            r@ == self.note(),
    {
        match self {
            RangePreset::Today => "今天 00:00 到现在",
            RangePreset::Week => "含今天在内的最近 7 天",
            RangePreset::Month => "含今天在内的最近 30 天",
            RangePreset::Year => "含今天在内的最近 365 天",
            RangePreset::All => "不限日期，把每个目录的整个提交史全扫一遍：大仓库要等几十秒",
            RangePreset::Custom => "手填起止日期（含两端），填完点「查询」",
        }
    }
}

/// A way to draw the statistics.
#[derive(Clone, Copy, Debug, PartialEq, Eq, Structural)]
pub enum ChartKind {
    Line,
    Bar,
    Heatmap,
}

impl ChartKind {
    /// What the chart is called.
    pub open spec fn title(self) -> Seq<char> {
        match self {
            ChartKind::Line => "折线图"@,
            ChartKind::Bar => "直方图"@,
            ChartKind::Heatmap => "火力图"@,
        }
    }

    /// What the chart shows, in words.
    pub open spec fn note(self) -> Seq<char> {
        match self {
            ChartKind::Line => "看趋势：每天（每月）一条折线，面积填充标出文件条目数"@,
            ChartKind::Bar => "比多少：每格两根柱子，蓝的是文件条目数、橙的是提交次数"@,
            ChartKind::Heatmap => "GitHub 式日历：列是一周、行是周一到周日，颜色越深当天提交的文件越多"@,
        }
    }

    /// The charts, in the order in which they are offered.
    pub fn all() -> (r: [ChartKind; 3])
        ensures
            r@ == seq![ChartKind::Line, ChartKind::Bar, ChartKind::Heatmap],
    {
        [ChartKind::Line, ChartKind::Bar, ChartKind::Heatmap]
    }

    /// What the chart is called.
    pub fn label(self) -> (r: &'static str)
        ensures
            r@ == self.title(),
    {
        match self {
            ChartKind::Line => "折线图",
            ChartKind::Bar => "直方图",
            ChartKind::Heatmap => "火力图",
        }
    }

    /// What the chart shows, in words.
    pub fn hover(self) -> (r: &'static str)
        ensures
            r@ == self.note(),
    {
        match self {
            ChartKind::Line => "看趋势：每天（每月）一条折线，面积填充标出文件条目数",
            ChartKind::Bar => "比多少：每格两根柱子，蓝的是文件条目数、橙的是提交次数",
            ChartKind::Heatmap => "GitHub 式日历：列是一周、行是周一到周日，颜色越深当天提交的文件越多",
        }
    }
}

// ---------------------------------------------------------------- ranges

/// The range that a preset and two typed dates stand for, or why they stand for none.
pub open spec fn range_for(
    preset: RangePreset,
    from: Seq<char>,
    to: Seq<char>,
    today: Date,
) -> Result<Option<(Date, Date)>, Seq<char>> {
    match preset.reach() {
        Some(back) => Ok(Some((date::numbered(today.number() - back), today))),
        None => if preset != RangePreset::Custom {
            Ok(None)
        } else {
            match date::date_in(from) {
                None => Err(
                    "起始日期「"@ + text::trim(from) + "」看不懂，要 YYYY-MM-DD 这种写法，例如 "@
                        + date::date_text(today),
                ),
                Some(start) => if text::trim(to).len() == 0 {
                    checked_range(start, today, to)
                } else {
                    match date::date_in(text::trim(to)) {
                        None => Err(
                            "结束日期「"@ + text::trim(to)
                                + "」看不懂，要 YYYY-MM-DD；留空表示到今天"@,
                        ),
                        Some(end) => checked_range(start, end, to),
                    }
                },
            }
        },
    }
}

/// The range from `start` to `end`, unless it is reversed.
pub open spec fn checked_range(start: Date, end: Date, to: Seq<char>) -> Result<
    Option<(Date, Date)>,
    Seq<char>,
> {
    if end.number() < start.number() {
        Err("结束日期 "@ + text::trim(to) + " 早于起始日期 "@ + date::date_text(start))
    } else {
        Ok(Some((start, end)))
    }
}

/// `r` is `want`, its text taken by its characters.
pub open spec fn same_range(
    r: Result<Option<(Date, Date)>, String>,
    want: Result<Option<(Date, Date)>, Seq<char>>,
) -> bool {
    match (r, want) {
        (Ok(a), Ok(b)) => a == b,
        (Err(a), Err(b)) => a@ == b,
        _ => false,
    }
}

/// The range that a preset and two typed dates stand for. Both the statistics and the history go
/// by it, so that what is picked in a chart is what the history then shows.
pub fn resolve_range(preset: RangePreset, from: &str, to: &str, today: Date) -> (r: Result<
    Option<(Date, Date)>,
    String,
>)
    requires
        today.wf(),
        today.number() - 364 >= date::first_number(),
    ensures
        same_range(r, range_for(preset, from@, to@, today)),
        r matches Ok(span) ==> date::span_wf(span),
        r matches Ok(Some(span)) ==> span.0.number() <= span.1.number(),
{
    if let Some(back) = preset.back_days() {
        proof {
            date::lemma_number_range(today);
        }
        let start = today.moved(-back);
        proof {
            date::lemma_number_injective(date::numbered(today.number() - back), start);
        }
        return Ok(Some((start, today)));
    }
    if preset != RangePreset::Custom {
        return Ok(None);
    }
    let start = match parse_date(from) {
        Some(d) => d,
        None => {
            let typed = text::trimmed(from);
            let example = today.to_text();
            let mut e = text::join3(
                "起始日期「",
                typed.as_str(),
                "」看不懂，要 YYYY-MM-DD 这种写法，例如 ",
            );
            e.append(example.as_str());
            return Err(e);
        },
    };
    let typed = text::trimmed(to);
    let end = if typed.as_str().is_empty() {
        today
    } else {
        match parse_date(typed.as_str()) {
            Some(d) => d,
            None => {
                return Err(
                    text::join3(
                        "结束日期「",
                        typed.as_str(),
                        "」看不懂，要 YYYY-MM-DD；留空表示到今天",
                    ),
                );
            },
        }
    };
    if end.is_before(start) {
        let first = start.to_text();
        let mut e = text::join3("结束日期 ", typed.as_str(), " 早于起始日期 ");
        e.append(first.as_str());
        return Err(e);
    }
    Ok(Some((start, end)))
}

/// The revisions to ask the server for.
pub open spec fn revisions_for(span: Option<(Date, Date)>) -> Seq<char> {
    match span {
        None => "HEAD:1"@,
        Some(s) => seq!['{'] + date::date_text(date::numbered(s.1.number() + 2)) + "}:{"@
            + date::date_text(date::numbered(s.0.number() - 1)) + seq!['}'],
    }
}

/// The revisions to ask the server for, newest first. Both ends are widened by a day or two: it
/// depends on the server whether a date means local time or UTC, a single day would be an empty
/// range, and commits at the ends would be cut off. What is too much is left out again by
/// `collect`.
pub fn revspec(span: Option<(Date, Date)>) -> (r: String)
    requires
        date::span_wf(span),
        span matches Some(s) ==> date::first_number() < s.0.number() && s.1.number() + 2
            <= date::last_number(),
    ensures
        r@ == revisions_for(span),
{
    match span {
        None => "HEAD:1".to_owned(),
        Some((from, to)) => {
            proof {
                date::lemma_number_range(from);
                date::lemma_number_range(to);
            }
            let low = from.moved(-1);
            let high = to.moved(2);
            proof {
                date::lemma_number_injective(date::numbered(from.number() - 1), low);
                date::lemma_number_injective(date::numbered(to.number() + 2), high);
            }
            let low = low.to_text();
            let high = high.to_text();
            let mut r: String = String::new();
            r.push('{');
            r.append(high.as_str());
            r.append("}:{");
            r.append(low.as_str());
            r.push('}');
            assert(r@ =~= revisions_for(span));
            r
        },
    }
}

/// The hint that two typed dates are the wrong way round.
pub open spec fn reversed_note(from: Seq<char>, to: Seq<char>) -> Option<Seq<char>> {
    match (date::date_in(from), date::date_in(to)) {
        (Some(a), Some(b)) => if b.number() < a.number() {
            Some(
                "起始日期 "@ + date::date_text(a) + " 晚于结束日期 "@ + date::date_text(b)
                    + "，两者要对调"@,
            )
        } else {
            None
        },
        _ => None,
    }
}

/// A hint where two typed dates are both dates but the wrong way round.
pub fn reversed_hint(from: &str, to: &str) -> (r: Option<String>)
    ensures
        match r {
            Some(t) => reversed_note(from@, to@) == Some(t@),
            None => reversed_note(from@, to@) is None,
        },
{
    match (parse_date(from), parse_date(to)) {
        (Some(a), Some(b)) => {
            if b.is_before(a) {
                let first = a.to_text();
                let last = b.to_text();
                let mut t = text::join3("起始日期 ", first.as_str(), " 晚于结束日期 ");
                t.append(last.as_str());
                t.append("，两者要对调");
                Some(t)
            } else {
                None
            }
        },
        _ => None,
    }
}

/// A hint is given exactly for the typed dates that a custom range refuses as reversed.
pub proof fn law_reversed_hint_matches_range(from: Seq<char>, to: Seq<char>, today: Date)
    requires
        text::trim(to).len() > 0,
        date::date_in(from) is Some,
        date::date_in(to) is Some,
    ensures
        reversed_note(from, to) is Some <==> range_for(RangePreset::Custom, from, to, today) is Err,
{
    text::lemma_trim_twice(to);
}

// ---------------------------------------------------------------- commits

/// A commit as the statistics see it: one revision, wherever it was read.
#[derive(Debug)]
pub struct Commit {
    pub rev: String,
    /// The directory in which it was read first.
    pub dir: usize,
    pub day: Date,
    /// The local time of day.
    pub time: String,
    pub paths: Vec<String>,
}

/// The view of a `Commit`.
pub struct CommitView {
    pub rev: Seq<char>,
    pub dir: usize,
    pub day: Date,
    pub time: Seq<char>,
    pub paths: Seq<Seq<char>>,
}

impl View for Commit {
    type V = CommitView;

    open spec fn view(&self) -> CommitView {
        CommitView {
            rev: self.rev@,
            dir: self.dir,
            day: self.day,
            time: self.time@,
            paths: text::views(self.paths@),
        }
    }
}

impl Clone for Commit {
    fn clone(&self) -> (r: Commit)
        ensures
            r@ == self@,
    {
        let paths = self.paths.clone();
        assert(text::views(paths@) =~= text::views(self.paths@));
        Commit {
            rev: self.rev.clone(),
            dir: self.dir,
            day: self.day,
            time: self.time.clone(),
            paths,
        }
    }
}

/// The views of the commits in `v`.
pub open spec fn commit_views(v: Seq<Commit>) -> Seq<CommitView> {
    Seq::new(v.len(), |i: int| v[i]@)
}

/// What was read in each directory, one record after the other.
pub open spec fn flat(all: Seq<(usize, Vec<LogEntry>)>) -> Seq<(usize, LogView)>
    decreases all.len(),
{
    if all.len() == 0 {
        Seq::empty()
    } else {
        flat(all.drop_last()) + tagged(all.last().0, log_views(all.last().1@))
    }
}

/// Records that were read in directory `dir`.
pub open spec fn tagged(dir: usize, entries: Seq<LogView>) -> Seq<(usize, LogView)> {
    Seq::new(entries.len(), |i: int| (dir, entries[i]))
}

/// The day of a record, which stands in its first ten bytes.
pub open spec fn day_of(when: Seq<char>) -> Option<Date> {
    match text::byte_prefix(when, 10) {
        Some(day) => date::date_in(day),
        None => None,
    }
}

/// The time of day of a record, which follows its first eleven bytes.
pub open spec fn time_of(when: Seq<char>) -> Seq<char> {
    match text::byte_suffix(when, 11) {
        Some(time) => time,
        None => Seq::empty(),
    }
}

/// `day` lies in `span`.
pub open spec fn covers(span: Option<(Date, Date)>, day: Date) -> bool {
    match span {
        Some(s) => s.0.number() <= day.number() <= s.1.number(),
        None => true,
    }
}

/// The position of the commit of revision `rev`, or -1.
pub open spec fn find_rev(commits: Seq<CommitView>, rev: Seq<char>) -> int
    decreases commits.len(),
{
    if commits.len() == 0 {
        -1
    } else if commits.last().rev == rev {
        commits.len() - 1
    } else {
        find_rev(commits.drop_last(), rev)
    }
}

/// `have` with the first `n` paths of `more` that it does not hold yet.
pub open spec fn with_paths(have: Seq<Seq<char>>, more: Seq<LogPathView>, n: int) -> Seq<Seq<char>>
    decreases n,
{
    if n <= 0 {
        have
    } else {
        let before = with_paths(have, more, n - 1);
        if before.contains(more[n - 1].path) {
            before
        } else {
            before.push(more[n - 1].path)
        }
    }
}

/// `commits` with a record added: a new commit, or more paths of one that is there.
pub open spec fn absorbed(
    commits: Seq<CommitView>,
    dir: usize,
    e: LogView,
    span: Option<(Date, Date)>,
) -> Seq<CommitView> {
    match day_of(e.date) {
        None => commits,
        Some(day) => if !covers(span, day) {
            commits
        } else {
            let k = find_rev(commits, e.revision);
            if k < 0 {
                commits.push(
                    CommitView {
                        rev: e.revision,
                        dir,
                        day,
                        time: time_of(e.date),
                        paths: with_paths(Seq::empty(), e.paths, e.paths.len() as int),
                    },
                )
            } else {
                commits.update(
                    k,
                    CommitView {
                        paths: with_paths(commits[k].paths, e.paths, e.paths.len() as int),
                        ..commits[k]
                    },
                )
            }
        },
    }
}

/// The commits in the first `n` records.
pub open spec fn gathered(
    records: Seq<(usize, LogView)>,
    span: Option<(Date, Date)>,
    n: int,
) -> Seq<CommitView>
    decreases n,
{
    if n <= 0 {
        Seq::empty()
    } else {
        absorbed(gathered(records, span, n - 1), records[n - 1].0, records[n - 1].1, span)
    }
}

/// How many of the first `n` records have no day.
pub open spec fn undated(records: Seq<(usize, LogView)>, n: int) -> int
    decreases n,
{
    if n <= 0 {
        0
    } else {
        undated(records, n - 1) + if day_of(records[n - 1].1.date) is None {
            1int
        } else {
            0
        }
    }
}

/// What commits are ordered by: the day, the time of day, the revision.
pub open spec fn commit_keys(list: Seq<CommitView>) -> Seq<order::KeyView> {
    Seq::new(
        list.len(),
        |i: int|
            order::KeyView { rank: list[i].day.number(), first: list[i].time, second: list[i].rev },
    )
}

/// `list` in the order of its keys.
pub open spec fn commits_ordered(list: Seq<CommitView>) -> Seq<CommitView> {
    let perm = choose|perm: Seq<int>| order::stable_order(commit_keys(list), perm);
    Seq::new(list.len(), |i: int| list[perm[i]])
}

/// The commits in what was read in each directory, in the order of time.
pub open spec fn collected(
    all: Seq<(usize, Vec<LogEntry>)>,
    span: Option<(Date, Date)>,
) -> Seq<CommitView> {
    commits_ordered(gathered(flat(all), span, flat(all).len() as int))
}

/// The days of all commits are dates.
pub open spec fn commits_wf(commits: Seq<CommitView>) -> bool {
    forall|i: int| 0 <= i < commits.len() ==> (#[trigger] commits[i]).day.wf()
}

proof fn lemma_find_rev(commits: Seq<CommitView>, rev: Seq<char>)
    ensures
        -1 <= find_rev(commits, rev) < commits.len(),
        find_rev(commits, rev) >= 0 ==> commits[find_rev(commits, rev)].rev == rev,
        find_rev(commits, rev) < 0 ==> forall|i: int|
            0 <= i < commits.len() ==> (#[trigger] commits[i]).rev != rev,
    decreases commits.len(),
{
    if commits.len() > 0 && commits.last().rev != rev {
        lemma_find_rev(commits.drop_last(), rev);
        assert forall|i: int| find_rev(commits, rev) < 0 && 0 <= i < commits.len() implies (
        #[trigger] commits[i]).rev != rev by {
            if i < commits.len() - 1 {
                assert(commits.drop_last()[i] == commits[i]);
            }
        }
    }
}

fn locate(commits: &Vec<Commit>, rev: &String) -> (r: Option<usize>)
    ensures
        match r {
            Some(k) => find_rev(commit_views(commits@), rev@) == k && k < commits.len(),
            None => find_rev(commit_views(commits@), rev@) == -1,
        },
{
    let ghost cv = commit_views(commits@);
    let mut k: usize = commits.len();
    assert(cv.take(k as int) =~= cv);
    while k > 0
        invariant
            k <= commits.len(),
            cv == commit_views(commits@),
            find_rev(cv, rev@) == find_rev(cv.take(k as int), rev@),
        decreases k,
    {
        assert(cv.take(k as int).drop_last() =~= cv.take(k - 1));
        assert(cv.take(k as int).last() == commits@[k - 1]@);
        if commits[k - 1].rev == *rev {
            return Some(k - 1);
        }
        k -= 1;
    }
    None
}

fn add_paths(have: &mut Vec<String>, e: &LogEntry)
    ensures
        text::views(final(have)@) == with_paths(
            text::views(old(have)@),
            e@.paths,
            e@.paths.len() as int,
        ),
{
    let ghost start = text::views(have@);
    let mut i: usize = 0;
    while i < e.paths.len()
        invariant
            i <= e.paths.len(),
            text::views(have@) == with_paths(start, e@.paths, i as int),
        decreases e.paths.len() - i,
    {
        assert(e@.paths[i as int] == e.paths@[i as int]@);
        if !text::holds(have, e.paths[i].path.as_str()) {
            let ghost before = have@;
            have.push(e.paths[i].path.clone());
            assert(text::views(have@) =~= text::views(before).push(e.paths@[i as int].path@));
        }
        i += 1;
    }
}

/// Adds a record to the commits.
fn absorb(commits: &mut Vec<Commit>, dir: usize, e: &LogEntry, day: Date)
    requires
        day.wf(),
        day_of(e.date@) == Some(day),
        commits_wf(commit_views(old(commits)@)),
    ensures
        commit_views(final(commits)@) == absorbed(commit_views(old(commits)@), dir, e@, None),
        commits_wf(commit_views(final(commits)@)),
{
    let ghost before = commits@;
    let ghost cv = commit_views(before);
    match locate(commits, &e.revision) {
        Some(k) => {
            let mut c = commits[k].clone();
            add_paths(&mut c.paths, e);
            commits.set(k, c);
            assert(commit_views(commits@) =~= cv.update(k as int, c@));
            assert(c@.day == cv[k as int].day);
        },
        None => {
            let time = match text::after_bytes(e.date.as_str(), 11) {
                Some(t) => t,
                None => String::new(),
            };
            let mut paths: Vec<String> = Vec::new();
            assert(text::views(paths@) =~= Seq::empty());
            add_paths(&mut paths, e);
            let c = Commit { rev: e.revision.clone(), dir, day, time, paths };
            commits.push(c);
            assert(commit_views(commits@) =~= cv.push(c@));
        },
    }
    assert(commits_wf(commit_views(commits@)));
}

fn sorted(list: Vec<Commit>) -> (r: Vec<Commit>)
    requires
        commits_wf(commit_views(list@)),
    ensures
        commit_views(r@) == commits_ordered(commit_views(list@)),
        commits_wf(commit_views(r@)),
{
    let ghost lv = commit_views(list@);
    let mut keys: Vec<order::Key> = Vec::new();
    let mut i: usize = 0;
    while i < list.len()
        invariant
            i <= list.len(),
            lv == commit_views(list@),
            commits_wf(lv),
            order::key_views(keys@) == commit_keys(lv).take(i as int),
        decreases list.len() - i,
    {
        let ghost before = keys@;
        assert(lv[i as int].day.wf());
        let key = order::Key {
            rank: list[i].day.day_number(),
            first: list[i].time.clone(),
            second: list[i].rev.clone(),
        };
        assert(key@ == commit_keys(lv)[i as int]);
        keys.push(key);
        assert(order::key_views(keys@) =~= order::key_views(before).push(key@));
        assert(commit_keys(lv).take(i + 1) =~= commit_keys(lv).take(i as int).push(key@));
        i += 1;
    }
    assert(commit_keys(lv).take(i as int) =~= commit_keys(lv));
    let perm = order::order(&keys);
    proof {
        let chosen = choose|p: Seq<int>| order::stable_order(commit_keys(lv), p);
        order::lemma_stable_order_unique(commit_keys(lv), chosen, order::places(perm@));
    }
    let mut out: Vec<Commit> = Vec::new();
    let mut k: usize = 0;
    while k < perm.len()
        invariant
            k <= perm.len(),
            perm@.len() == list@.len(),
            lv == commit_views(list@),
            forall|j: int| 0 <= j < perm@.len() ==> (#[trigger] perm@[j]) < list@.len(),
            out@.len() == k,
            forall|j: int| 0 <= j < k ==> (#[trigger] out@[j])@ == lv[perm@[j] as int],
        decreases perm.len() - k,
    {
        let c = list[perm[k]].clone();
        out.push(c);
        k += 1;
    }
    assert(commit_views(out@) =~= commits_ordered(lv));
    assert forall|j: int| 0 <= j < out@.len() implies (#[trigger] commit_views(out@)[j]).day.wf() by {
        assert(out@[j]@ == lv[perm@[j] as int]);
    }
    out
}

/// What was read in each directory, as commits in the order of time, and how many records have no
/// day. A revision that was read in two directories is one commit, and a path that it touched is
/// counted once: the same repository may be listed twice, or one directory lie in another.
pub fn collect(all: &Vec<(usize, Vec<LogEntry>)>, span: Option<(Date, Date)>) -> (r: (
    Vec<Commit>,
    usize,
))
    requires
        date::span_wf(span),
        flat(all@).len() <= usize::MAX,
    ensures
        commit_views(r.0@) == collected(all@, span),
        r.1 == undated(flat(all@), flat(all@).len() as int),
        commits_wf(commit_views(r.0@)),
{
    let ghost records = flat(all@);
    let mut commits: Vec<Commit> = Vec::new();
    let mut skipped: usize = 0;
    let mut d: usize = 0;
    assert(commit_views(commits@) =~= Seq::empty());
    assert(all@.take(0) =~= Seq::empty());
    while d < all.len()
        invariant
            date::span_wf(span),
            records == flat(all@),
            records.len() <= usize::MAX,
            d <= all.len(),
            flat(all@.take(d as int)).len() <= records.len(),
            records.take(flat(all@.take(d as int)).len() as int) == flat(all@.take(d as int)),
            commits_wf(commit_views(commits@)),
            commit_views(commits@) == gathered(
                records,
                span,
                flat(all@.take(d as int)).len() as int,
            ),
            skipped == undated(records, flat(all@.take(d as int)).len() as int),
            skipped <= flat(all@.take(d as int)).len(),
        decreases all.len() - d,
    {
        let dir = all[d].0;
        let entries = &all[d].1;
        let ghost base = flat(all@.take(d as int)).len() as int;
        let ghost next = flat(all@.take(d + 1));
        proof {
            assert(all@.take(d + 1).drop_last() =~= all@.take(d as int));
            assert(all@.take(d + 1).last() == all@[d as int]);
            lemma_flat_prefix(all@, d + 1);
            assert(next.len() == base + entries@.len());
            assert forall|j: int| 0 <= j < entries@.len() implies records[base + j] == (
                dir,
                #[trigger] entries@[j]@,
            ) by {
                assert(next[base + j] == (dir, entries@[j]@));
                assert(records.take(next.len() as int)[base + j] == next[base + j]);
            }
        }
        let mut i: usize = 0;
        while i < entries.len()
            invariant
                date::span_wf(span),
                i <= entries.len(),
                base + entries@.len() <= records.len(),
                records.len() <= usize::MAX,
                base >= 0,
                forall|j: int|
                    0 <= j < entries@.len() ==> records[base + j] == (
                        dir,
                        #[trigger] entries@[j]@,
                    ),
                commits_wf(commit_views(commits@)),
                commit_views(commits@) == gathered(records, span, base + i),
                skipped == undated(records, base + i),
                skipped <= base + i,
            decreases entries.len() - i,
        {
            let e = &entries[i];
            assert(records[base + i] == (dir, entries@[i as int]@));
            let day = match text::first_bytes(e.date.as_str(), 10) {
                Some(t) => parse_date(t.as_str()),
                None => None,
            };
            assert(day == day_of(e.date@));
            match day {
                None => {
                    skipped += 1;
                },
                Some(day) => {
                    let inside = match span {
                        Some((from, to)) => !day.is_before(from) && !to.is_before(day),
                        None => true,
                    };
                    if inside {
                        absorb(&mut commits, dir, e, day);
                    }
                },
            }
            i += 1;
        }
        assert(records.take(next.len() as int) =~= next);
        d += 1;
    }
    assert(all@.take(d as int) =~= all@);
    (sorted(commits), skipped)
}

proof fn lemma_flat_prefix(all: Seq<(usize, Vec<LogEntry>)>, d: int)
    requires
        0 <= d <= all.len(),
    ensures
        flat(all.take(d)).len() <= flat(all).len(),
        flat(all).take(flat(all.take(d)).len() as int) == flat(all.take(d)),
    decreases all.len() - d,
{
    if d == all.len() {
        assert(all.take(d) =~= all);
        assert(flat(all).take(flat(all).len() as int) =~= flat(all));
    } else {
        lemma_flat_prefix(all, d + 1);
        let next = flat(all.take(d + 1));
        let here = flat(all.take(d));
        assert(all.take(d + 1).drop_last() =~= all.take(d));
        assert(next.take(here.len() as int) =~= here);
        assert(flat(all).take(here.len() as int) =~= flat(all).take(next.len() as int).take(
            here.len() as int,
        ));
    }
}

// ---------------------------------------------------------------- laws of collecting

/// No revision stands twice in `commits`, and no path twice in a commit.
pub open spec fn no_repeats(commits: Seq<CommitView>) -> bool {
    &&& forall|i: int, j: int|
        0 <= i < j < commits.len() ==> (#[trigger] commits[i]).rev != (#[trigger] commits[j]).rev
    &&& forall|i: int| 0 <= i < commits.len() ==> (#[trigger] commits[i]).paths.no_duplicates()
}

proof fn lemma_with_paths(have: Seq<Seq<char>>, more: Seq<LogPathView>, n: int)
    requires
        0 <= n <= more.len(),
    ensures
        have.no_duplicates() ==> with_paths(have, more, n).no_duplicates(),
        forall|p: Seq<char>| have.contains(p) ==> #[trigger] with_paths(have, more, n).contains(p),
        forall|i: int|
            0 <= i < n ==> with_paths(have, more, n).contains((#[trigger] more[i]).path),
    decreases n,
{
    if n > 0 {
        lemma_with_paths(have, more, n - 1);
        let before = with_paths(have, more, n - 1);
        let after = with_paths(have, more, n);
        let p = more[n - 1].path;
        if !before.contains(p) {
            assert(after[before.len() as int] == p);
            assert forall|q: Seq<char>| before.contains(q) implies after.contains(q) by {
                let k = choose|k: int| 0 <= k < before.len() && before[k] == q;
                assert(after[k] == q);
            }
            assert forall|i: int| 0 <= i < n implies after.contains((#[trigger] more[i]).path) by {
                if i < n - 1 {
                    assert(before.contains(more[i].path));
                }
            }
        }
    }
}

proof fn lemma_with_paths_settled(have: Seq<Seq<char>>, more: Seq<LogPathView>, n: int)
    requires
        0 <= n <= more.len(),
        forall|i: int| 0 <= i < more.len() ==> have.contains((#[trigger] more[i]).path),
    ensures
        with_paths(have, more, n) == have,
    decreases n,
{
    if n > 0 {
        lemma_with_paths_settled(have, more, n - 1);
        assert(have.contains(more[n - 1].path));
    }
}

proof fn lemma_absorbed(
    commits: Seq<CommitView>,
    dir: usize,
    e: LogView,
    span: Option<(Date, Date)>,
)
    requires
        no_repeats(commits),
        forall|i: int| 0 <= i < commits.len() ==> covers(span, (#[trigger] commits[i]).day),
    ensures
        no_repeats(absorbed(commits, dir, e, span)),
        forall|i: int|
            0 <= i < absorbed(commits, dir, e, span).len() ==> covers(
                span,
                (#[trigger] absorbed(commits, dir, e, span)[i]).day,
            ),
        absorbed(commits, dir, e, span).len() <= commits.len() + 1,
{
    lemma_find_rev(commits, e.revision);
    let k = find_rev(commits, e.revision);
    let after = absorbed(commits, dir, e, span);
    if k >= 0 {
        lemma_with_paths(commits[k].paths, e.paths, e.paths.len() as int);
    } else {
        lemma_with_paths(Seq::empty(), e.paths, e.paths.len() as int);
    }
    assert forall|i: int, j: int| 0 <= i < j < after.len() implies (#[trigger] after[i]).rev != (
    #[trigger] after[j]).rev by {
        if j < commits.len() {
            assert(after[i].rev == commits[i].rev);
            assert(after[j].rev == commits[j].rev);
        } else {
            assert(after[i].rev == commits[i].rev);
        }
    }
    assert forall|i: int| 0 <= i < after.len() implies (#[trigger] after[i]).paths.no_duplicates() by {
        if i < commits.len() {
            assert(commits[i].paths.no_duplicates());
        }
    }
}

proof fn lemma_gathered(records: Seq<(usize, LogView)>, span: Option<(Date, Date)>, n: int)
    requires
        0 <= n <= records.len(),
    ensures
        no_repeats(gathered(records, span, n)),
        forall|i: int|
            0 <= i < gathered(records, span, n).len() ==> covers(
                span,
                (#[trigger] gathered(records, span, n)[i]).day,
            ),
        gathered(records, span, n).len() <= n,
    decreases n,
{
    if n > 0 {
        lemma_gathered(records, span, n - 1);
        lemma_absorbed(
            gathered(records, span, n - 1),
            records[n - 1].0,
            records[n - 1].1,
            span,
        );
    }
}

/// However often and wherever revisions were read: each is one commit, none of its paths is listed
/// twice, and only commits of the wanted days are there, in the order of time.
pub proof fn law_collected(all: Seq<(usize, Vec<LogEntry>)>, span: Option<(Date, Date)>)
    ensures
        no_repeats(collected(all, span)),
        forall|i: int|
            0 <= i < collected(all, span).len() ==> covers(
                span,
                (#[trigger] collected(all, span)[i]).day,
            ),
        forall|i: int, j: int|
            0 <= i < j < collected(all, span).len() ==> order::key_before(
                #[trigger] commit_keys(collected(all, span))[i],
                #[trigger] commit_keys(collected(all, span))[j],
            ),
{
    let records = flat(all);
    let list = gathered(records, span, records.len() as int);
    lemma_gathered(records, span, records.len() as int);
    order::lemma_order_exists(commit_keys(list));
    let keys = commit_keys(list);
    let perm = choose|perm: Seq<int>| order::stable_order(keys, perm);
    let out = collected(all, span);
    assert forall|i: int, j: int| 0 <= i < j < out.len() implies (#[trigger] out[i]).rev != (
    #[trigger] out[j]).rev && order::key_before(commit_keys(out)[i], commit_keys(out)[j]) by {
        assert(order::in_order(keys, perm[i], perm[j]));
        assert(perm[i] < list.len() && perm[j] < list.len());
        order::lemma_in_order_strict(keys, perm[i], perm[j]);
        let p = perm[i];
        let q = perm[j];
        assert(out[i] == list[p] && out[j] == list[q]);
        if p < q {
            assert(list[p].rev != list[q].rev);
        } else if q < p {
            assert(list[q].rev != list[p].rev);
        } else {
            assert(false);
        }
        assert(keys[p] != keys[q]);
    }
    assert forall|i: int, j: int| 0 <= i < j < out.len() implies order::key_before(
        #[trigger] commit_keys(out)[i],
        #[trigger] commit_keys(out)[j],
    ) by {
        assert(out[i].rev != out[j].rev);
    }
    assert forall|i: int| 0 <= i < out.len() implies (#[trigger] out[i]).paths.no_duplicates()
        && covers(span, out[i].day) by {
        assert(perm[i] < list.len());
        assert(out[i] == list[perm[i]]);
    }
}

/// A record counts: it has a day, and that lies in `span`.
pub open spec fn counts(e: LogView, span: Option<(Date, Date)>) -> bool {
    day_of(e.date) matches Some(day) && covers(span, day)
}

/// Record `i` is the first of the first `n` that counts for revision `rev`.
pub open spec fn first_record(
    records: Seq<(usize, LogView)>,
    span: Option<(Date, Date)>,
    n: int,
    rev: Seq<char>,
    i: int,
) -> bool {
    &&& 0 <= i < n
    &&& counts(records[i].1, span)
    &&& records[i].1.revision == rev
    &&& forall|j: int|
        0 <= j < i ==> !(counts((#[trigger] records[j]).1, span) && records[j].1.revision == rev)
}

/// Record `i`, one of the first `n`, counts for revision `rev` and names the path `q`.
pub open spec fn names_path(
    records: Seq<(usize, LogView)>,
    span: Option<(Date, Date)>,
    n: int,
    rev: Seq<char>,
    q: Seq<char>,
    i: int,
) -> bool {
    &&& 0 <= i < n
    &&& counts(records[i].1, span)
    &&& records[i].1.revision == rev
    &&& exists|p: int|
        0 <= p < records[i].1.paths.len() && (#[trigger] records[i].1.paths[p]).path == q
}

/// `c` is what the first `n` records say of its revision: the directory, the day and the time of
/// the first that counts, and the paths of all that count.
pub open spec fn tells_all(
    c: CommitView,
    records: Seq<(usize, LogView)>,
    span: Option<(Date, Date)>,
    n: int,
) -> bool {
    &&& exists|i: int| #[trigger]
        first_record(records, span, n, c.rev, i) && c.dir == records[i].0 && Some(c.day) == day_of(
            records[i].1.date,
        ) && c.time == time_of(records[i].1.date)
    &&& forall|q: Seq<char>| #[trigger]
        c.paths.contains(q) <==> exists|i: int| #[trigger]
            names_path(records, span, n, c.rev, q, i)
}

proof fn lemma_with_paths_only(have: Seq<Seq<char>>, more: Seq<LogPathView>, n: int, q: Seq<char>)
    requires
        0 <= n <= more.len(),
    ensures
        with_paths(have, more, n).contains(q) <==> have.contains(q) || exists|i: int|
            0 <= i < n && (#[trigger] more[i]).path == q,
    decreases n,
{
    lemma_with_paths(have, more, n);
    if n > 0 {
        lemma_with_paths_only(have, more, n - 1, q);
        let before = with_paths(have, more, n - 1);
        let after = with_paths(have, more, n);
        if after.contains(q) && !before.contains(q) {
            let k = choose|k: int| 0 <= k < after.len() && after[k] == q;
            if k < before.len() {
                assert(before[k] == q);
            }
            assert(more[n - 1].path == q);
        }
    }
}

/// A record that does not count for the revision of `c` leaves it as it is.
proof fn lemma_tells_on(
    c: CommitView,
    records: Seq<(usize, LogView)>,
    span: Option<(Date, Date)>,
    n: int,
)
    requires
        0 <= n < records.len(),
        tells_all(c, records, span, n),
        !(counts(records[n].1, span) && records[n].1.revision == c.rev),
    ensures
        tells_all(c, records, span, n + 1),
{
    let i = choose|i: int| #[trigger]
        first_record(records, span, n, c.rev, i) && c.dir == records[i].0 && Some(c.day) == day_of(
            records[i].1.date,
        ) && c.time == time_of(records[i].1.date);
    assert(first_record(records, span, n + 1, c.rev, i));
    assert forall|q: Seq<char>| #[trigger] c.paths.contains(q) <==> exists|i: int| #[trigger]
        names_path(records, span, n + 1, c.rev, q, i) by {
        if c.paths.contains(q) {
            let k = choose|k: int| #[trigger] names_path(records, span, n, c.rev, q, k);
            assert(names_path(records, span, n + 1, c.rev, q, k));
        }
        if exists|k: int| #[trigger] names_path(records, span, n + 1, c.rev, q, k) {
            let k = choose|k: int| #[trigger] names_path(records, span, n + 1, c.rev, q, k);
            assert(names_path(records, span, n, c.rev, q, k));
        }
    }
}

/// A record that counts for the revision of `c` adds its paths.
proof fn lemma_tells_more(
    c: CommitView,
    d: CommitView,
    records: Seq<(usize, LogView)>,
    span: Option<(Date, Date)>,
    n: int,
)
    requires
        0 <= n < records.len(),
        tells_all(c, records, span, n),
        counts(records[n].1, span) && records[n].1.revision == c.rev,
        d == (CommitView {
            paths: with_paths(c.paths, records[n].1.paths, records[n].1.paths.len() as int),
            ..c
        }),
    ensures
        tells_all(d, records, span, n + 1),
{
    let more = records[n].1.paths;
    let i = choose|i: int| #[trigger]
        first_record(records, span, n, c.rev, i) && c.dir == records[i].0 && Some(c.day) == day_of(
            records[i].1.date,
        ) && c.time == time_of(records[i].1.date);
    assert(first_record(records, span, n + 1, d.rev, i));
    assert forall|q: Seq<char>| #[trigger] d.paths.contains(q) <==> exists|i: int| #[trigger]
        names_path(records, span, n + 1, d.rev, q, i) by {
        lemma_with_paths_only(c.paths, more, more.len() as int, q);
        if d.paths.contains(q) {
            if c.paths.contains(q) {
                let k = choose|k: int| #[trigger] names_path(records, span, n, c.rev, q, k);
                assert(names_path(records, span, n + 1, d.rev, q, k));
            } else {
                assert(names_path(records, span, n + 1, d.rev, q, n));
            }
        }
        if exists|k: int| #[trigger] names_path(records, span, n + 1, d.rev, q, k) {
            let k = choose|k: int| #[trigger] names_path(records, span, n + 1, d.rev, q, k);
            if k < n {
                assert(names_path(records, span, n, c.rev, q, k));
            }
        }
    }
}

/// The first record that counts for a revision makes its commit.
proof fn lemma_tells_first(
    d: CommitView,
    records: Seq<(usize, LogView)>,
    span: Option<(Date, Date)>,
    n: int,
)
    requires
        0 <= n < records.len(),
        counts(records[n].1, span),
        forall|j: int|
            0 <= j < n ==> !(counts((#[trigger] records[j]).1, span) && records[j].1.revision
                == records[n].1.revision),
        d == (CommitView {
            rev: records[n].1.revision,
            dir: records[n].0,
            day: day_of(records[n].1.date)->Some_0,
            time: time_of(records[n].1.date),
            paths: with_paths(
                Seq::empty(),
                records[n].1.paths,
                records[n].1.paths.len() as int,
            ),
        }),
    ensures
        tells_all(d, records, span, n + 1),
{
    let more = records[n].1.paths;
    assert(first_record(records, span, n + 1, d.rev, n));
    assert forall|q: Seq<char>| #[trigger] d.paths.contains(q) <==> exists|i: int| #[trigger]
        names_path(records, span, n + 1, d.rev, q, i) by {
        lemma_with_paths_only(Seq::empty(), more, more.len() as int, q);
        if d.paths.contains(q) {
            assert(names_path(records, span, n + 1, d.rev, q, n));
        }
        if exists|k: int| #[trigger] names_path(records, span, n + 1, d.rev, q, k) {
            let k = choose|k: int| #[trigger] names_path(records, span, n + 1, d.rev, q, k);
            assert(k == n);
        }
    }
}

/// Some commit is of revision `rev`.
pub open spec fn has_rev(commits: Seq<CommitView>, rev: Seq<char>) -> bool {
    exists|k: int| 0 <= k < commits.len() && (#[trigger] commits[k]).rev == rev
}

proof fn lemma_gathered_all(records: Seq<(usize, LogView)>, span: Option<(Date, Date)>, n: int)
    requires
        0 <= n <= records.len(),
    ensures
        forall|i: int|
            0 <= i < n && counts((#[trigger] records[i]).1, span) ==> has_rev(
                gathered(records, span, n),
                records[i].1.revision,
            ),
        forall|k: int|
            0 <= k < gathered(records, span, n).len() ==> tells_all(
                #[trigger] gathered(records, span, n)[k],
                records,
                span,
                n,
            ),
    decreases n,
{
    if n > 0 {
        let m = n - 1;
        let before = gathered(records, span, m);
        let after = gathered(records, span, n);
        let e = records[m].1;
        lemma_gathered_all(records, span, m);
        lemma_gathered(records, span, m);
        lemma_find_rev(before, e.revision);
        let at = find_rev(before, e.revision);
        assert forall|k: int| 0 <= k < after.len() implies tells_all(
            #[trigger] after[k],
            records,
            span,
            n,
        ) by {
            if k < before.len() {
                assert(tells_all(before[k], records, span, m));
                if counts(e, span) && k == at {
                    lemma_tells_more(before[k], after[k], records, span, m);
                } else {
                    if counts(e, span) && at >= 0 {
                        if k < at {
                            assert(before[k].rev != before[at].rev);
                        } else {
                            assert(before[at].rev != before[k].rev);
                        }
                    }
                    lemma_tells_on(before[k], records, span, m);
                }
            } else {
                assert forall|j: int| 0 <= j < m implies !(counts((#[trigger] records[j]).1, span)
                    && records[j].1.revision == e.revision) by {
                    if counts(records[j].1, span) && records[j].1.revision == e.revision {
                        assert(has_rev(before, e.revision));
                    }
                }
                lemma_tells_first(after[k], records, span, m);
            }
        }
        assert forall|i: int| 0 <= i < n && counts((#[trigger] records[i]).1, span) implies has_rev(
            after,
            records[i].1.revision,
        ) by {
            if i < m {
                assert(has_rev(before, records[i].1.revision));
                let k = choose|k: int|
                    0 <= k < before.len() && (#[trigger] before[k]).rev == records[i].1.revision;
                assert(after[k].rev == before[k].rev);
            } else if at >= 0 {
                assert(after[at].rev == e.revision);
            } else {
                assert(after[before.len() as int].rev == e.revision);
            }
        }
    }
}

/// Nothing that was read is left out: every revision of a record with a day in `span` is there, and
/// a commit has the directory, the day and the time of the first such record of its revision, and
/// the paths of all of them.
pub proof fn law_every_revision_is_collected(
    all: Seq<(usize, Vec<LogEntry>)>,
    span: Option<(Date, Date)>,
)
    ensures
        forall|i: int|
            0 <= i < flat(all).len() && counts((#[trigger] flat(all)[i]).1, span) ==> has_rev(
                collected(all, span),
                flat(all)[i].1.revision,
            ),
        forall|k: int|
            0 <= k < collected(all, span).len() ==> tells_all(
                #[trigger] collected(all, span)[k],
                flat(all),
                span,
                flat(all).len() as int,
            ),
{
    let records = flat(all);
    let n = records.len() as int;
    let list = gathered(records, span, n);
    let out = collected(all, span);
    let keys = commit_keys(list);
    lemma_gathered(records, span, n);
    lemma_gathered_all(records, span, n);
    order::lemma_order_exists(keys);
    let perm = choose|perm: Seq<int>| order::stable_order(keys, perm);
    order::lemma_lists_all(keys, perm);
    assert forall|k: int| 0 <= k < out.len() implies tells_all(
        #[trigger] out[k],
        records,
        span,
        n,
    ) by {
        assert(perm[k] < list.len());
        assert(out[k] == list[perm[k]]);
    }
    assert forall|i: int| 0 <= i < n && counts((#[trigger] records[i]).1, span) implies has_rev(
        out,
        records[i].1.revision,
    ) by {
        let rev = records[i].1.revision;
        assert(has_rev(list, rev));
        let k = choose|k: int| 0 <= k < list.len() && (#[trigger] list[k]).rev == rev;
        assert(perm.contains(k));
        let j = choose|j: int| 0 <= j < perm.len() && perm[j] == k;
        assert(out[j] == list[perm[j]]);
        assert(out[j].rev == rev);
    }
}

proof fn lemma_flat_joined(a: Seq<(usize, Vec<LogEntry>)>, b: Seq<(usize, Vec<LogEntry>)>)
    ensures
        flat(a + b) == flat(a) + flat(b),
    decreases b.len(),
{
    if b.len() == 0 {
        assert(a + b =~= a);
        assert(flat(a) + flat(b) =~= flat(a));
    } else {
        lemma_flat_joined(a, b.drop_last());
        assert((a + b).drop_last() =~= a + b.drop_last());
        assert((a + b).last() == b.last());
        assert(flat(a + b) =~= flat(a) + flat(b));
    }
}

/// Absorbing `e` once more changes nothing.
spec fn settled(commits: Seq<CommitView>, e: LogView, span: Option<(Date, Date)>) -> bool {
    match day_of(e.date) {
        None => true,
        Some(day) => !covers(span, day) || {
            let k = find_rev(commits, e.revision);
            k >= 0 && forall|i: int|
                0 <= i < e.paths.len() ==> commits[k].paths.contains((#[trigger] e.paths[i]).path)
        },
    }
}

proof fn lemma_find_same_revs(a: Seq<CommitView>, b: Seq<CommitView>, rev: Seq<char>)
    requires
        a.len() == b.len(),
        forall|i: int| 0 <= i < a.len() ==> (#[trigger] a[i]).rev == b[i].rev,
    ensures
        find_rev(a, rev) == find_rev(b, rev),
    decreases a.len(),
{
    if a.len() > 0 {
        assert(a[a.len() - 1].rev == b[b.len() - 1].rev);
        assert forall|i: int| 0 <= i < a.drop_last().len() implies (#[trigger] a.drop_last()[i]).rev
            == b.drop_last()[i].rev by {
            assert(a[i].rev == b[i].rev);
        }
        lemma_find_same_revs(a.drop_last(), b.drop_last(), rev);
    }
}

proof fn lemma_settles(
    commits: Seq<CommitView>,
    dir: usize,
    e: LogView,
    span: Option<(Date, Date)>,
)
    ensures
        settled(absorbed(commits, dir, e, span), e, span),
{
    lemma_find_rev(commits, e.revision);
    let k = find_rev(commits, e.revision);
    let after = absorbed(commits, dir, e, span);
    if day_of(e.date) is Some && covers(span, day_of(e.date)->0) {
        if k >= 0 {
            lemma_find_same_revs(commits, after, e.revision);
            lemma_with_paths(commits[k].paths, e.paths, e.paths.len() as int);
        } else {
            lemma_with_paths(Seq::empty(), e.paths, e.paths.len() as int);
        }
    }
}

proof fn lemma_stays_settled(
    commits: Seq<CommitView>,
    e: LogView,
    dir: usize,
    other: LogView,
    span: Option<(Date, Date)>,
)
    requires
        settled(commits, e, span),
    ensures
        settled(absorbed(commits, dir, other, span), e, span),
{
    lemma_find_rev(commits, e.revision);
    lemma_find_rev(commits, other.revision);
    let after = absorbed(commits, dir, other, span);
    let k = find_rev(commits, e.revision);
    let m = find_rev(commits, other.revision);
    if day_of(e.date) is Some && covers(span, day_of(e.date)->0) && after != commits {
        if m >= 0 {
            lemma_find_same_revs(commits, after, e.revision);
            lemma_with_paths(commits[m].paths, other.paths, other.paths.len() as int);
        } else {
            assert(after.drop_last() =~= commits);
            assert(after.last().rev == other.revision);
            if other.revision == e.revision {
                assert(commits[k].rev == e.revision);
            }
        }
    }
}

proof fn lemma_settled_absorbs(
    commits: Seq<CommitView>,
    dir: usize,
    e: LogView,
    span: Option<(Date, Date)>,
)
    requires
        settled(commits, e, span),
    ensures
        absorbed(commits, dir, e, span) == commits,
{
    lemma_find_rev(commits, e.revision);
    let k = find_rev(commits, e.revision);
    if day_of(e.date) is Some && covers(span, day_of(e.date)->0) {
        lemma_with_paths_settled(commits[k].paths, e.paths, e.paths.len() as int);
        assert(commits.update(k, commits[k]) =~= commits);
    }
}

proof fn lemma_gathered_settles(
    records: Seq<(usize, LogView)>,
    span: Option<(Date, Date)>,
    i: int,
    n: int,
)
    requires
        0 <= i < n <= records.len(),
    ensures
        settled(gathered(records, span, n), records[i].1, span),
    decreases n,
{
    if i == n - 1 {
        lemma_settles(
            gathered(records, span, n - 1),
            records[n - 1].0,
            records[n - 1].1,
            span,
        );
    } else {
        lemma_gathered_settles(records, span, i, n - 1);
        lemma_stays_settled(
            gathered(records, span, n - 1),
            records[i].1,
            records[n - 1].0,
            records[n - 1].1,
            span,
        );
    }
}

proof fn lemma_gathered_prefix(
    a: Seq<(usize, LogView)>,
    b: Seq<(usize, LogView)>,
    span: Option<(Date, Date)>,
    n: int,
)
    requires
        0 <= n <= a.len(),
        n <= b.len(),
        forall|i: int| 0 <= i < n ==> a[i] == b[i],
    ensures
        gathered(a, span, n) == gathered(b, span, n),
    decreases n,
{
    if n > 0 {
        lemma_gathered_prefix(a, b, span, n - 1);
    }
}

/// `e` is one of the records.
pub open spec fn read_before(records: Seq<(usize, LogView)>, e: LogView) -> bool {
    exists|i: int| 0 <= i < records.len() && (#[trigger] records[i]).1 == e
}

/// Records that were read before, in this or in another directory, add nothing: a commit that is
/// read twice counts once.
pub proof fn law_read_again_counts_once(
    first: Seq<(usize, LogView)>,
    again: Seq<(usize, LogView)>,
    span: Option<(Date, Date)>,
)
    requires
        forall|j: int| 0 <= j < again.len() ==> read_before(first, (#[trigger] again[j]).1),
    ensures
        gathered(first + again, span, (first + again).len() as int) == gathered(
            first,
            span,
            first.len() as int,
        ),
    decreases again.len(),
{
    let all = first + again;
    if again.len() == 0 {
        assert(all =~= first);
    } else {
        let fewer = again.drop_last();
        assert forall|j: int| 0 <= j < fewer.len() implies read_before(
            first,
            (#[trigger] fewer[j]).1,
        ) by {
            assert(fewer[j] == again[j]);
        }
        law_read_again_counts_once(first, fewer, span);
        let n = all.len() - 1;
        lemma_gathered_prefix(all, first + fewer, span, n);
        let j = again.len() - 1;
        assert(read_before(first, again[j].1));
        let i = choose|i: int| 0 <= i < first.len() && (#[trigger] first[i]).1 == again[j].1;
        lemma_gathered_settles(first, span, i, first.len() as int);
        assert(all[n] == again[j]);
        lemma_settled_absorbs(
            gathered(first, span, first.len() as int),
            all[n].0,
            all[n].1,
            span,
        );
    }
}

/// Lists whose records were all read before change nothing of the commits: not a second reading of
/// all directories, nor one of the same repository in another directory.
pub proof fn law_lists_read_again_change_nothing(
    all: Seq<(usize, Vec<LogEntry>)>,
    more: Seq<(usize, Vec<LogEntry>)>,
    span: Option<(Date, Date)>,
)
    requires
        forall|j: int|
            0 <= j < flat(more).len() ==> read_before(flat(all), (#[trigger] flat(more)[j]).1),
    ensures
        collected(all + more, span) == collected(all, span),
{
    lemma_flat_joined(all, more);
    law_read_again_counts_once(flat(all), flat(more), span);
}

/// What collecting comes to, whatever was read: the revisions that are there are those of the
/// records with a day in `span`, each once, in the order of day, time and revision; each has the
/// directory, the day and the time of its first such record and, without repetition, the paths of
/// all of them. A second copy of all lists changes nothing.
pub proof fn law_collecting(all: Seq<(usize, Vec<LogEntry>)>, span: Option<(Date, Date)>)
    ensures
        ({
            let out = collected(all, span);
            let records = flat(all);
            &&& forall|rev: Seq<char>|
                #[trigger] has_rev(out, rev) == exists|i: int|
                    0 <= i < records.len() && counts((#[trigger] records[i]).1, span)
                        && records[i].1.revision == rev
            &&& no_repeats(out)
            &&& forall|i: int, j: int|
                0 <= i < j < out.len() ==> order::key_before(
                    #[trigger] commit_keys(out)[i],
                    #[trigger] commit_keys(out)[j],
                )
            &&& forall|k: int|
                0 <= k < out.len() ==> tells_all(
                    #[trigger] out[k],
                    records,
                    span,
                    records.len() as int,
                )
            &&& collected(all + all, span) == out
        }),
{
    let out = collected(all, span);
    let records = flat(all);
    law_collected(all, span);
    law_every_revision_is_collected(all, span);
    assert forall|j: int| 0 <= j < records.len() implies read_before(
        records,
        (#[trigger] records[j]).1,
    ) by {}
    law_lists_read_again_change_nothing(all, all, span);
    assert forall|rev: Seq<char>| #[trigger] has_rev(out, rev) implies exists|i: int|
        0 <= i < records.len() && counts((#[trigger] records[i]).1, span)
            && records[i].1.revision == rev by {
        let k = choose|k: int| 0 <= k < out.len() && (#[trigger] out[k]).rev == rev;
        assert(tells_all(out[k], records, span, records.len() as int));
    }
}

// ---------------------------------------------------------------- totals

/// What was committed, in numbers.
#[derive(Clone, Copy, Debug, PartialEq, Eq, Structural)]
pub struct Totals {
    /// Revisions.
    pub revs: usize,
    /// Paths, a path that three commits touched counted three times.
    pub files: usize,
    /// Different paths.
    pub distinct_files: usize,
    /// Days with a commit.
    pub active_days: usize,
    /// Directories with a commit.
    pub dirs: usize,
}

impl Default for Totals {
    fn default() -> (r: Totals)
        ensures
            r == (Totals { revs: 0, files: 0, distinct_files: 0, active_days: 0, dirs: 0 }),
    {
        Totals { revs: 0, files: 0, distinct_files: 0, active_days: 0, dirs: 0 }
    }
}

/// The paths of all commits, one after the other.
pub open spec fn all_paths(commits: Seq<CommitView>) -> Seq<Seq<char>>
    decreases commits.len(),
{
    if commits.len() == 0 {
        Seq::empty()
    } else {
        all_paths(commits.drop_last()) + commits.last().paths
    }
}

/// The days of all commits.
pub open spec fn all_days(commits: Seq<CommitView>) -> Seq<Date> {
    Seq::new(commits.len(), |i: int| commits[i].day)
}

/// The directories of all commits.
pub open spec fn all_dirs(commits: Seq<CommitView>) -> Seq<usize> {
    Seq::new(commits.len(), |i: int| commits[i].dir)
}

/// `t` holds the numbers of `commits`.
pub open spec fn totals_of(commits: Seq<CommitView>, t: Totals) -> bool {
    &&& t.revs == commits.len()
    &&& t.files == all_paths(commits).len()
    &&& t.distinct_files == all_paths(commits).to_set().len()
    &&& t.active_days == all_days(commits).to_set().len()
    &&& t.dirs == all_dirs(commits).to_set().len()
}

fn distinct_days(commits: &Vec<Commit>) -> (r: usize)
    ensures
        r == all_days(commit_views(commits@)).to_set().len(),
{
    let ghost days = all_days(commit_views(commits@));
    let mut seen: Vec<Date> = Vec::new();
    let mut i: usize = 0;
    assert(seen@.to_set() =~= days.take(0).to_set());
    while i < commits.len()
        invariant
            i <= commits.len(),
            days == all_days(commit_views(commits@)),
            seen@.no_duplicates(),
            seen@.to_set() == days.take(i as int).to_set(),
        decreases commits.len() - i,
    {
        let day = commits[i].day;
        let mut found: bool = false;
        let mut k: usize = 0;
        while k < seen.len() && !found
            invariant
                k <= seen.len(),
                found ==> seen@.contains(day),
                !found ==> forall|j: int| 0 <= j < k ==> seen@[j] != day,
            decreases seen.len() - k + (if found { 0int } else { 1 }),
        {
            if seen[k] == day {
                found = true;
            } else {
                k += 1;
            }
        }
        let ghost before = seen@;
        let ghost next = days.take(i + 1);
        assert(next =~= days.take(i as int).push(day));
        if !found {
            seen.push(day);
        }
        proof {
            lemma_push_set(days.take(i as int), day);
            lemma_push_set(before, day);
            if found {
                assert(before.to_set().insert(day) =~= before.to_set());
            }
        }
        i += 1;
    }
    assert(days.take(i as int) =~= days);
    proof {
        seen@.unique_seq_to_set();
    }
    seen.len()
}

fn distinct_dirs(commits: &Vec<Commit>) -> (r: usize)
    ensures
        r == all_dirs(commit_views(commits@)).to_set().len(),
{
    let ghost dirs = all_dirs(commit_views(commits@));
    let mut seen: Vec<usize> = Vec::new();
    let mut i: usize = 0;
    assert(seen@.to_set() =~= dirs.take(0).to_set());
    while i < commits.len()
        invariant
            i <= commits.len(),
            dirs == all_dirs(commit_views(commits@)),
            seen@.no_duplicates(),
            seen@.to_set() == dirs.take(i as int).to_set(),
        decreases commits.len() - i,
    {
        let dir = commits[i].dir;
        let mut found: bool = false;
        let mut k: usize = 0;
        while k < seen.len() && !found
            invariant
                k <= seen.len(),
                found ==> seen@.contains(dir),
                !found ==> forall|j: int| 0 <= j < k ==> seen@[j] != dir,
            decreases seen.len() - k + (if found { 0int } else { 1 }),
        {
            if seen[k] == dir {
                found = true;
            } else {
                k += 1;
            }
        }
        let ghost before = seen@;
        let ghost next = dirs.take(i + 1);
        assert(next =~= dirs.take(i as int).push(dir));
        if !found {
            seen.push(dir);
        }
        proof {
            lemma_push_set(dirs.take(i as int), dir);
            lemma_push_set(before, dir);
            if found {
                assert(before.to_set().insert(dir) =~= before.to_set());
            }
        }
        i += 1;
    }
    assert(dirs.take(i as int) =~= dirs);
    proof {
        seen@.unique_seq_to_set();
    }
    seen.len()
}

proof fn lemma_push_set<T>(s: Seq<T>, x: T)
    ensures
        s.push(x).to_set() == s.to_set().insert(x),
{
    assert forall|y: T| s.push(x).to_set().contains(y) == s.to_set().insert(x).contains(y) by {
        if s.to_set().contains(y) {
            let k = choose|k: int| 0 <= k < s.len() && s[k] == y;
            assert(s.push(x)[k] == y);
        }
        if y == x {
            assert(s.push(x)[s.len() as int] == x);
        }
        if s.push(x).to_set().contains(y) && y != x {
            let k = choose|k: int| 0 <= k < s.push(x).len() && s.push(x)[k] == y;
            assert(s[k] == y);
        }
    }
    assert(s.push(x).to_set() =~= s.to_set().insert(x));
}

fn count_paths(commits: &Vec<Commit>) -> (r: (usize, usize))
    requires
        all_paths(commit_views(commits@)).len() <= usize::MAX,
    ensures
        r.0 == all_paths(commit_views(commits@)).len(),
        r.1 == all_paths(commit_views(commits@)).to_set().len(),
{
    let ghost cv = commit_views(commits@);
    let mut files: usize = 0;
    let mut seen = StringHashSet::new();
    let mut i: usize = 0;
    assert(cv.take(0) =~= Seq::empty());
    assert(seen@ =~= all_paths(cv.take(0)).to_set());
    while i < commits.len()
        invariant
            i <= commits.len(),
            cv == commit_views(commits@),
            all_paths(cv).len() <= usize::MAX,
            files == all_paths(cv.take(i as int)).len(),
            seen@ == all_paths(cv.take(i as int)).to_set(),
        decreases commits.len() - i,
    {
        let paths = &commits[i].paths;
        let ghost base = all_paths(cv.take(i as int));
        let ghost pv = text::views(paths@);
        proof {
            assert(cv.take(i + 1).drop_last() =~= cv.take(i as int));
            assert(cv.take(i + 1).last() == cv[i as int]);
            lemma_paths_prefix(cv, i + 1);
        }
        let mut k: usize = 0;
        assert(base + pv.take(0) =~= base);
        while k < paths.len()
            invariant
                k <= paths.len(),
                pv == text::views(paths@),
                seen@ == (base + pv.take(k as int)).to_set(),
            decreases paths.len() - k,
        {
            seen.insert(paths[k].clone());
            proof {
                lemma_push_set(base + pv.take(k as int), pv[k as int]);
                assert((base + pv.take(k as int)).push(pv[k as int]) =~= base + pv.take(k + 1));
            }
            k += 1;
        }
        assert(pv.take(k as int) =~= pv);
        files += paths.len();
        i += 1;
    }
    assert(cv.take(i as int) =~= cv);
    (files, seen.len())
}

proof fn lemma_paths_prefix(cv: Seq<CommitView>, n: int)
    requires
        0 <= n <= cv.len(),
    ensures
        all_paths(cv.take(n)).len() <= all_paths(cv).len(),
    decreases cv.len() - n,
{
    if n < cv.len() {
        lemma_paths_prefix(cv, n + 1);
        assert(cv.take(n + 1).drop_last() =~= cv.take(n));
    } else {
        assert(cv.take(n) =~= cv);
    }
}

/// The numbers of `commits`.
pub fn totals(commits: &Vec<Commit>) -> (r: Totals)
    requires
        all_paths(commit_views(commits@)).len() <= usize::MAX,
    ensures
        totals_of(commit_views(commits@), r),
{
    let (files, distinct_files) = count_paths(commits);
    Totals {
        revs: commits.len(),
        files,
        distinct_files,
        active_days: distinct_days(commits),
        dirs: distinct_dirs(commits),
    }
}

// ---------------------------------------------------------------- laws

/// Commits come in the order of time: by day, on one day by the time of day, at one time by the
/// revision. No two are alike in all of these.
pub proof fn law_commits_come_in_the_order_of_time(
    all: Seq<(usize, Vec<LogEntry>)>,
    span: Option<(Date, Date)>,
    i: int,
    j: int,
)
    requires
        0 <= i < j < collected(all, span).len(),
    ensures
        ({
            let a = collected(all, span)[i];
            let b = collected(all, span)[j];
            ||| a.day.number() < b.day.number()
            ||| a.day.number() == b.day.number() && text::before(a.time, b.time)
            ||| a.day.number() == b.day.number() && a.time == b.time && text::before(a.rev, b.rev)
        }),
{
    law_collected(all, span);
    let keys = commit_keys(collected(all, span));
    assert(order::key_before(keys[i], keys[j]));
}

proof fn lemma_ascii_bytes(s: Seq<char>, n: int)
    requires
        0 <= n <= s.len(),
        forall|i: int| 0 <= i < n ==> #[trigger] s[i] <= '\u{7f}',
    ensures
        text::chars_in_bytes(s, n) == Some(n),
    decreases n,
{
    if n > 0 {
        let rest = text::after(s, 1);
        assert(s[0] <= '\u{7f}');
        assert forall|i: int| 0 <= i < n - 1 implies #[trigger] rest[i] <= '\u{7f}' by {
            assert(rest[i] == s[i + 1]);
        }
        lemma_ascii_bytes(rest, n - 1);
    }
}

/// A record's day stands in its first ten characters, and its time of day behind the character that
/// follows them.
pub proof fn law_records_hold_day_and_time(day: Seq<char>, sep: char, time: Seq<char>)
    requires
        day.len() == 10,
        forall|i: int| 0 <= i < 10 ==> #[trigger] day[i] <= '\u{7f}',
        sep <= '\u{7f}',
    ensures
        day_of(day + seq![sep] + time) == date::date_in(day),
        day_of(day) == date::date_in(day),
        time_of(day + seq![sep] + time) == time,
{
    let s = day + seq![sep] + time;
    assert forall|i: int| 0 <= i < 11 implies #[trigger] s[i] <= '\u{7f}' by {
        if i < 10 {
            assert(s[i] == day[i]);
        }
    }
    lemma_ascii_bytes(s, 10);
    lemma_ascii_bytes(s, 11);
    lemma_ascii_bytes(day, 10);
    assert(s.subrange(0, 10) =~= day);
    assert(day.subrange(0, 10) =~= day);
    assert(text::after(s, 11) =~= time);
}

/// A range holds both of its ends. A record counts where its day lies in the range; without a range,
/// where it has a day at all.
pub proof fn law_ranges_hold_their_ends(e: LogView, from: Date, to: Date)
    ensures
        counts(e, None) <==> day_of(e.date) is Some,
        counts(e, Some((from, to))) <==> exists|day: Date|
            day_of(e.date) == Some(day) && from.number() <= #[trigger] day.number()
                <= to.number(),
{
    if counts(e, Some((from, to))) {
        let day = day_of(e.date)->0;
        assert(from.number() <= day.number() <= to.number());
    }
}

/// The records that are passed over are those without a day, and are counted one by one.
pub proof fn law_undated_records_are_counted(records: Seq<(usize, LogView)>, n: int)
    requires
        0 <= n <= records.len(),
    ensures
        undated(records, n) == records.take(n).filter(
            |r: (usize, LogView)| day_of(r.1.date) is None,
        ).len(),
    decreases n,
{
    reveal(Seq::filter);
    if n > 0 {
        law_undated_records_are_counted(records, n - 1);
        assert(records.take(n).drop_last() =~= records.take(n - 1));
        assert(records.take(n).last() == records[n - 1]);
    }
}

/// The presets end today and hold 1, 7, 30 and 365 days, today included. Everything has no range. A
/// range of one's own runs from the first date to the second, or to today where none is typed, and
/// is refused exactly where a date cannot be read or the second comes before the first.
pub proof fn law_presets_hold_their_days(
    preset: RangePreset,
    from: Seq<char>,
    to: Seq<char>,
    today: Date,
)
    requires
        today.wf(),
        today.number() - 364 >= date::first_number(),
    ensures
        ({
            let r = range_for(preset, from, to, today);
            let end = if text::trim(to).len() == 0 {
                Some(today)
            } else {
                date::date_in(text::trim(to))
            };
            &&& preset == RangePreset::Today ==> ends_today(r, today, 1)
            &&& preset == RangePreset::Week ==> ends_today(r, today, 7)
            &&& preset == RangePreset::Month ==> ends_today(r, today, 30)
            &&& preset == RangePreset::Year ==> ends_today(r, today, 365)
            &&& preset == RangePreset::All ==> (r matches Ok(span) && span is None)
            &&& preset == RangePreset::Custom ==> match (date::date_in(from), end) {
                (Some(a), Some(b)) => if a.number() <= b.number() {
                    r == Ok::<Option<(Date, Date)>, Seq<char>>(Some((a, b)))
                } else {
                    r is Err
                },
                _ => r is Err,
            }
        }),
{
    date::lemma_number_range(today);
    if preset.reach() is Some {
        let back = preset.reach()->0 as int;
        let first = Date { year: date::FIRST_YEAR, month: 1, day: 1 };
        assert(first.wf() && first.number() == date::first_number());
        date::lemma_numbers_between(first, today, today.number() - back);
    }
}

/// The range is one of `days` days, the last of them today.
pub open spec fn ends_today(
    r: Result<Option<(Date, Date)>, Seq<char>>,
    today: Date,
    days: int,
) -> bool {
    r matches Ok(Some(span)) && span.0.wf() && span.1 == today && span.1.number()
        - span.0.number() + 1 == days
}

/// The server is asked for the revisions from the day before the range to the second day after it,
/// the newest first.
pub proof fn law_more_is_asked_for_than_the_range(from: Date, to: Date, low: Date, high: Date)
    requires
        low.wf(),
        high.wf(),
        low.number() == from.number() - 1,
        high.number() == to.number() + 2,
    ensures
        revisions_for(Some((from, to))) == "{"@ + date::date_text(high) + "}:{"@ + date::date_text(
            low,
        ) + "}"@,
        revisions_for(None) == "HEAD:1"@,
{
    reveal_strlit("{");
    reveal_strlit("}");
    date::lemma_number_injective(date::numbered(from.number() - 1), low);
    date::lemma_number_injective(date::numbered(to.number() + 2), high);
    assert("{"@ =~= seq!['{']);
    assert("}"@ =~= seq!['}']);
}

proof fn lemma_all_paths(commits: Seq<CommitView>)
    ensures
        all_paths(commits).len() == commits.fold_left(
            0int,
            |sum: int, c: CommitView| sum + c.paths.len(),
        ),
        forall|p: Seq<char>| #[trigger]
            all_paths(commits).contains(p) <==> exists|i: int|
                0 <= i < commits.len() && (#[trigger] commits[i]).paths.contains(p),
    decreases commits.len(),
{
    if commits.len() > 0 {
        let fewer = commits.drop_last();
        lemma_all_paths(fewer);
        let all = all_paths(commits);
        let before = all_paths(fewer);
        let n = commits.len() - 1;
        assert forall|p: Seq<char>| #[trigger] all.contains(p) <==> exists|i: int|
            0 <= i < commits.len() && (#[trigger] commits[i]).paths.contains(p) by {
            if all.contains(p) {
                let k = choose|k: int| 0 <= k < all.len() && all[k] == p;
                if k < before.len() {
                    assert(before[k] == p);
                    assert(before.contains(p));
                    let i = choose|i: int|
                        0 <= i < fewer.len() && (#[trigger] fewer[i]).paths.contains(p);
                    assert(commits[i].paths.contains(p));
                } else {
                    assert(commits[n].paths[k - before.len()] == p);
                    assert(commits[n].paths.contains(p));
                }
            }
            if exists|i: int| 0 <= i < commits.len() && (#[trigger] commits[i]).paths.contains(
                p,
            ) {
                let i = choose|i: int|
                    0 <= i < commits.len() && (#[trigger] commits[i]).paths.contains(p);
                if i < n {
                    assert(fewer[i].paths.contains(p));
                    assert(before.contains(p));
                    let k = choose|k: int| 0 <= k < before.len() && before[k] == p;
                    assert(all[k] == p);
                } else {
                    let k = choose|k: int|
                        0 <= k < commits[n].paths.len() && commits[n].paths[k] == p;
                    assert(all[before.len() + k] == p);
                }
            }
        }
    }
}

/// The numbers of commits: how many there are, how many paths they have together, how many different
/// paths, and on how many different days and in how many different directories they were made.
pub proof fn law_totals_are_counts(commits: Seq<CommitView>, t: Totals)
    requires
        totals_of(commits, t),
    ensures
        t.revs == commits.len(),
        t.files == commits.fold_left(0int, |sum: int, c: CommitView| sum + c.paths.len()),
        t.distinct_files == Set::new(
            |p: Seq<char>|
                exists|i: int|
                    0 <= i < commits.len() && (#[trigger] commits[i]).paths.contains(p),
        ).len(),
        t.active_days == Set::new(
            |d: Date| exists|i: int| 0 <= i < commits.len() && (#[trigger] commits[i]).day == d,
        ).len(),
        t.dirs == Set::new(
            |d: usize| exists|i: int| 0 <= i < commits.len() && (#[trigger] commits[i]).dir == d,
        ).len(),
{
    lemma_all_paths(commits);
    let paths = Set::new(
        |p: Seq<char>|
            exists|i: int| 0 <= i < commits.len() && (#[trigger] commits[i]).paths.contains(p),
    );
    assert(all_paths(commits).to_set() =~= paths);
    let days = Set::new(
        |d: Date| exists|i: int| 0 <= i < commits.len() && (#[trigger] commits[i]).day == d,
    );
    assert forall|d: Date| days.contains(d) == all_days(commits).to_set().contains(d) by {
        if days.contains(d) {
            let i = choose|i: int| 0 <= i < commits.len() && (#[trigger] commits[i]).day == d;
            assert(all_days(commits)[i] == d);
        }
        if all_days(commits).contains(d) {
            let i = choose|i: int| 0 <= i < commits.len() && all_days(commits)[i] == d;
            assert(commits[i].day == d);
        }
    }
    assert(all_days(commits).to_set() =~= days);
    let dirs = Set::new(
        |d: usize| exists|i: int| 0 <= i < commits.len() && (#[trigger] commits[i]).dir == d,
    );
    assert forall|d: usize| dirs.contains(d) == all_dirs(commits).to_set().contains(d) by {
        if dirs.contains(d) {
            let i = choose|i: int| 0 <= i < commits.len() && (#[trigger] commits[i]).dir == d;
            assert(all_dirs(commits)[i] == d);
        }
        if all_dirs(commits).contains(d) {
            let i = choose|i: int| 0 <= i < commits.len() && all_dirs(commits)[i] == d;
            assert(commits[i].dir == d);
        }
    }
    assert(all_dirs(commits).to_set() =~= dirs);
}

/// The paths of a commit stand in the order in which they were first told: the result is the list
/// that there was, and behind it each path that it does not hold, from where it stands first.
/// Returns those places.
pub proof fn law_paths_keep_their_order(have: Seq<Seq<char>>, more: Seq<LogPathView>, n: int) -> (at:
    Seq<int>)
    requires
        0 <= n <= more.len(),
    ensures
        with_paths(have, more, n) == have + at.map_values(|i: int| more[i].path),
        forall|k: int, m: int| 0 <= k < m < at.len() ==> at[k] < at[m],
        forall|i: int| #[trigger]
            at.contains(i) <==> 0 <= i < n && !have.contains(more[i].path) && forall|j: int|
                0 <= j < i ==> (#[trigger] more[j]).path != more[i].path,
    decreases n,
{
    let path = |i: int| more[i].path;
    if n <= 0 {
        let at = Seq::<int>::empty();
        assert(have + at.map_values(path) =~= have);
        at
    } else {
        let front = law_paths_keep_their_order(have, more, n - 1);
        let before = with_paths(have, more, n - 1);
        let q = more[n - 1].path;
        lemma_with_paths_only(have, more, n - 1, q);
        if before.contains(q) {
            assert(!(!have.contains(q) && forall|j: int|
                0 <= j < n - 1 ==> (#[trigger] more[j]).path != q));
            assert forall|i: int| #[trigger] front.contains(i) <==> 0 <= i < n && !have.contains(
                more[i].path,
            ) && forall|j: int| 0 <= j < i ==> (#[trigger] more[j]).path != more[i].path by {
                if front.contains(i) {
                    assert(0 <= i < n - 1);
                }
            }
            front
        } else {
            let at = front.push(n - 1);
            assert(have + at.map_values(path) =~= (have + front.map_values(path)).push(q));
            assert forall|k: int, m: int| 0 <= k < m < at.len() implies at[k] < at[m] by {
                if m == front.len() {
                    assert(front.contains(front[k]));
                }
            }
            assert forall|i: int| #[trigger] at.contains(i) <==> 0 <= i < n && !have.contains(
                more[i].path,
            ) && forall|j: int| 0 <= j < i ==> (#[trigger] more[j]).path != more[i].path by {
                if i == n - 1 {
                    assert(at[front.len() as int] == n - 1);
                } else {
                    assert(at.contains(i) <==> front.contains(i)) by {
                        if front.contains(i) {
                            let k = choose|k: int| 0 <= k < front.len() && front[k] == i;
                            assert(at[k] == i);
                        }
                        if at.contains(i) {
                            let k = choose|k: int| 0 <= k < at.len() && at[k] == i;
                            assert(front[k] == i);
                        }
                    }
                }
            }
            at
        }
    }
}

} // verus!

