//! The way from page to page, and what each of them begins with.

use vstd::prelude::*;
use crate::commit::{
    commit_block, outdated_hint, outdated_note, picked, staging_text, CommitPage, Pick, Press,
};
use crate::date;
use crate::date::{date_text, Date};
use crate::history::HistoryPage;
use crate::jobs::{runs, written, Kind, Task};
use crate::model::{out_views, Level, Page, Relocate};
use crate::state::{pushed, SvnApp, Wish};
use crate::stats::{collected, flat, RangePreset, ALL_DIRS};
use crate::stats_page::{asked, are_others, drill_line, drill_text, is_busiest, Start, StatsPage};
use crate::svn::status_views;
use crate::tasks::{began, hinted};
use crate::text;
use crate::upload::{CommitPlan, PlanView};
use crate::work::{Act, Job};

verus! {

impl SvnApp {
    /// Goes back to the list of directories.
    pub fn back_to_main(&mut self)
        ensures
            *final(self) == (SvnApp { page: Page::Main, ..*old(self) }),
    {
        self.page = Page::Main;
    }

    /// Opens the commit page of a directory and reads its changes.
    pub fn open_commit(&mut self, index: usize, is_file: bool) -> (r: Vec<Wish>)
        ensures
            if !old(self).usable(is_file) {
                r@.len() == 0 && final(self).asks_for_client(*old(self))
            } else {
                &&& r@ == seq![Wish::Status { dir: index, quiet: false }]
                &&& final(self).commit matches Some(c) && c.opens(
                    index,
                    old(self).label_at(index as int),
                )
                &&& *final(self) == (SvnApp {
                    commit: final(self).commit,
                    page: Page::Commit,
                    ..*old(self)
                })
            },
    {
        let mut wishes: Vec<Wish> = Vec::new();
        if self.svn_or_none(is_file).is_none() {
            return wishes;
        }
        let label = self.dir_label(index);
        self.commit = Some(CommitPage::new(index, label));
        self.page = Page::Commit;
        wishes.push(Wish::Status { dir: index, quiet: false });
        assert(wishes@ =~= seq![Wish::Status { dir: index, quiet: false }]);
        wishes
    }

    /// Opens the history of a directory and reads its newest records.
    pub fn open_history(&mut self, index: usize, is_file: bool) -> (r: Vec<Wish>)
        requires
            old(self).wf(),
        ensures
            final(self).wf(),
            old(self).history_opened(index, None, is_file, *final(self), r@),
    {
        self.open_history_in(index, None, is_file)
    }

    /// From `self` to `after`: the history of a directory is open, over the days in `range`, or
    /// there is no client.
    pub open spec fn history_opened(
        self,
        index: usize,
        range: Option<(Date, Date)>,
        is_file: bool,
        after: SvnApp,
        wishes: Seq<Wish>,
    ) -> bool {
        if !self.usable(is_file) {
            wishes.len() == 0 && after.asks_for_client(self)
        } else {
            &&& after.history matches Some(h) && self.history_page(index, range, h) && wishes
                == seq![Wish::Log { dir: index, mine: h.mine, unlimited: false, range }]
            &&& after == (SvnApp { history: after.history, page: Page::History, ..self })
        }
    }

    /// The history page of a directory, over the days in `range`: they stand in the fields of a
    /// range of one's own, where they can be seen and changed.
    pub open spec fn history_page(self, index: usize, range: Option<(Date, Date)>, h: HistoryPage) -> bool {
        exists|new: HistoryPage| #[trigger]
            new.opens(
                index,
                self.label_at(index as int),
                self.cfg.log_limit,
                self.login.svn_user@,
                self.cfg.history_only_mine,
            ) && match range {
                None => h == new,
                Some(days) => {
                    &&& h.custom_from@ == date_text(days.0)
                    &&& h.custom_to@ == date_text(days.1)
                    &&& h == (HistoryPage {
                        preset: Some(RangePreset::Custom),
                        custom_from: h.custom_from,
                        custom_to: h.custom_to,
                        range,
                        ..new
                    })
                },
            }
    }

    /// Opens the history of a directory. With a range of days the records of those days are read,
    /// otherwise the newest.
    pub fn open_history_in(&mut self, index: usize, range: Option<(Date, Date)>, is_file: bool) -> (
    r: Vec<Wish>)
        requires
            old(self).wf(),
            date::span_wf(range),
        ensures
            final(self).wf(),
            old(self).history_opened(index, range, is_file, *final(self), r@),
    {
        let mut wishes: Vec<Wish> = Vec::new();
        if self.svn_or_none(is_file).is_none() {
            return wishes;
        }
        let label = self.dir_label(index);
        let limit = self.cfg.log_limit;
        let user = self.login.svn_user.clone();
        let mut page = HistoryPage::new(index, label, limit, user, self.cfg.history_only_mine);
        let ghost new = page;
        assert(new.opens(
            index,
            self.label_at(index as int),
            self.cfg.log_limit,
            self.login.svn_user@,
            self.cfg.history_only_mine,
        ));
        if let Some((from, to)) = range {
            page.preset = Some(RangePreset::Custom);
            page.custom_from = from.to_text();
            page.custom_to = to.to_text();
        }
        page.range = range;
        assert(self.history_page(index, range, page));
        let mine = page.mine;
        self.history = Some(page);
        self.page = Page::History;
        wishes.push(Wish::Log { dir: index, mine, unlimited: false, range });
        assert(wishes@ =~= seq![Wish::Log { dir: index, mine, unlimited: false, range }]);
        wishes
    }

    /// Opens the dialog that changes the address of a repository. It begins with the root of the
    /// repository, so that only the new root has to be typed.
    pub fn open_relocate(&mut self, index: usize)
        ensures
            if index < old(self).dirs@.len() && old(self).dirs@[index as int].info is Some {
                let info = old(self).dirs@[index as int].info->0;
                &&& final(self).relocate matches Some(d) && d.dir == index && d.from@ == (
                if info.repos_root@.len() == 0 {
                    info.url@
                } else {
                    info.repos_root@
                }) && d.to@.len() == 0 && d.focus && d.error@.len() == 0
                &&& *final(self) == (SvnApp { relocate: final(self).relocate, ..*old(self) })
            } else {
                hinted(
                    *old(self),
                    "还没有读到该目录的仓库地址，请先「全部检测」后再试"@,
                    *final(self),
                )
            },
    {
        if index < self.dirs.len() {
            if let Some(info) = &self.dirs[index].info {
                let from = if info.repos_root.as_str().is_empty() {
                    info.url.clone()
                } else {
                    info.repos_root.clone()
                };
                self.relocate = Some(
                    Relocate {
                        dir: index,
                        from,
                        to: String::new(),
                        focus: true,
                        error: String::new(),
                    },
                );
                return;
            }
        }
        self.hint("还没有读到该目录的仓库地址，请先「全部检测」后再试");
    }

    // ------------------------------------------------------------ statistics

    /// Opens the statistics of all directories.
    pub fn open_stats(&mut self, is_file: bool) -> (r: Vec<Wish>)
        requires
            old(self).wf(),
        ensures
            final(self).wf(),
            if !old(self).usable(is_file) {
                r@.len() == 0 && final(self).asks_for_client(*old(self))
            } else if old(self).cfg.dirs@.len() == 0 {
                r@.len() == 0 && hinted(
                    *old(self),
                    "目录列表是空的，先添加一个 SVN 工作副本目录"@,
                    *final(self),
                )
            } else {
                let unknown = text::trim(old(self).login.svn_user@).len() == 0;
                &&& r@ == (if unknown {
                    seq![Wish::AuthUser, Wish::Stats]
                } else {
                    seq![Wish::Stats]
                })
                &&& unknown ==> final(self).hint@
                    == "正在探测本机 svn 登录人，探测到后会自动开始统计"@
                &&& !unknown ==> final(self).hint == old(self).hint
                &&& final(self).stats matches Some(s) && s.opens()
                &&& *final(self) == (SvnApp {
                    stats: final(self).stats,
                    page: Page::Stats,
                    hint: final(self).hint,
                    ..*old(self)
                })
            },
    {
        let mut wishes: Vec<Wish> = Vec::new();
        if self.svn_or_none(is_file).is_none() {
            return wishes;
        }
        if self.cfg.dirs.len() == 0 {
            self.hint("目录列表是空的，先添加一个 SVN 工作副本目录");
            return wishes;
        }
        let unknown = text::blank(self.login.svn_user.as_str());
        if unknown {
            self.hint("正在探测本机 svn 登录人，探测到后会自动开始统计");
            wishes.push(Wish::AuthUser);
        }
        self.stats = Some(StatsPage::new());
        self.page = Page::Stats;
        wishes.push(Wish::Stats);
        assert(wishes@ =~= (if unknown {
            seq![Wish::AuthUser, Wish::Stats]
        } else {
            seq![Wish::Stats]
        }));
        wishes
    }

    /// `job` reads the commits of directory `dir` for a query.
    pub open spec fn stats_job(self, page: StatsPage, dir: usize, job: Job) -> bool {
        &&& job.dir == dir
        &&& job.svn == self.svn
        &&& job.act matches Act::Stats { epoch, target, spec, author } && epoch == page.epoch
            && target@ == self.path_at(dir) + "@HEAD"@ && spec@ == page.revspec@ && author@
            == page.author@
    }

    /// `task` stands for reading the commits of directory `dir`.
    pub open spec fn stats_task(self, dir: usize, task: Task) -> bool {
        &&& task.kind == Kind::Stats
        &&& task.dir == ALL_DIRS
        &&& task.label@ == self.label_at(dir as int) + " 提交统计"@
    }

    /// From `self` to `after`: the directories in `list` are being asked.
    pub open spec fn asking(self, page: StatsPage, list: Seq<usize>, after: SvnApp, jobs: Seq<Job>) -> bool {
        let old_tasks = self.pool.tasks@;
        &&& jobs.len() == list.len()
        &&& forall|i: int|
            0 <= i < list.len() ==> self.stats_job(page, list[i], #[trigger] jobs[i])
        &&& after.pool.tasks@.len() == old_tasks.len() + list.len()
        &&& after.pool.tasks@.take(old_tasks.len() as int) == old_tasks
        &&& forall|i: int|
            0 <= i < list.len() ==> self.stats_task(
                #[trigger] list[i],
                after.pool.tasks@[old_tasks.len() + i],
            )
    }

    /// What the status line says once `n` directories are being asked.
    pub open spec fn asking_text(n: int) -> Seq<char> {
        if n == 0 {
            "没有可统计的目录"@
        } else {
            "正在统计 "@ + text::decimal(n) + " 个目录的本人提交 …"@
        }
    }

    fn ask_all(&mut self, list: &Vec<usize>, epoch: u64, spec: &str, author: &str) -> (r: Vec<Job>)
        requires
            forall|i: int| 0 <= i < list@.len() ==> old(self).has_dir(#[trigger] list@[i]),
        ensures
            forall|page: StatsPage|
                page.epoch == epoch && page.revspec@ == spec@ && page.author@ == author@
                    ==> #[trigger] old(self).asking(page, list@, *final(self), r@),
            *final(self) == (SvnApp { pool: final(self).pool, ..*old(self) }),
    {
        let ghost first = *self;
        let ghost n = first.pool.tasks@.len();
        let mut jobs: Vec<Job> = Vec::new();
        let mut i: usize = 0;
        assert(self.pool.tasks@.take(n as int) =~= first.pool.tasks@);
        while i < list.len()
            invariant
                i <= list.len(),
                n == first.pool.tasks@.len(),
                *self == (SvnApp { pool: self.pool, ..first }),
                forall|k: int| 0 <= k < list@.len() ==> first.has_dir(#[trigger] list@[k]),
                jobs@.len() == i,
                forall|page: StatsPage, k: int|
                    page.epoch == epoch && page.revspec@ == spec@ && page.author@ == author@ && 0
                        <= k < i ==> #[trigger] first.stats_job(page, list@[k], jobs@[k]),
                self.pool.tasks@.len() == n + i,
                self.pool.tasks@.take(n as int) == first.pool.tasks@,
                forall|k: int|
                    0 <= k < i ==> first.stats_task(#[trigger] list@[k], self.pool.tasks@[n + k]),
            decreases list.len() - i,
        {
            let dir = list[i];
            assert(first.has_dir(list@[i as int]));
            let label = self.dir_label(dir);
            let ghost before = self.pool.tasks@;
            let target = text::join2(self.cfg.dirs[dir].path.as_str(), "@HEAD");
            self.pool.spawn(Kind::Stats, ALL_DIRS, text::join2(label.as_str(), " 提交统计"));
            assert(self.pool.tasks@.take(n as int) =~= before.take(n as int));
            jobs.push(
                Job {
                    dir,
                    svn: self.svn.clone(),
                    act: Act::Stats {
                        epoch,
                        target,
                        spec: spec.to_owned(),
                        author: author.to_owned(),
                    },
                },
            );
            i += 1;
        }
        assert forall|page: StatsPage|
            page.epoch == epoch && page.revspec@ == spec@ && page.author@
                == author@ implies #[trigger] first.asking(page, list@, *self, jobs@) by {
            assert forall|k: int| 0 <= k < list@.len() implies first.stats_job(
                page,
                list@[k],
                #[trigger] jobs@[k],
            ) by {}
        }
        jobs
    }

    /// From `self` to `after`: the query of the statistics page has begun, as its conditions allow.
    pub open spec fn stats_begun(self, today: Date, is_file: bool, after: SvnApp, jobs: Seq<Job>) -> bool {
        if !self.usable(is_file) {
            jobs.len() == 0 && after.asks_for_client(self)
        } else {
            match self.stats {
                None => jobs.len() == 0 && after == self,
                Some(page) => exists|q: StatsPage, r: Start| #[trigger]
                    page.started(self.cfg.dirs@.len() as usize, self.login.svn_user@, today, q, r)
                        && match r {
                        Start::Refused(why) => {
                            &&& jobs.len() == 0
                            &&& after.hint@ == why@
                            &&& after == (SvnApp { stats: Some(q), hint: after.hint, ..self })
                        },
                        Start::NoUser => jobs.len() == 0 && after == (SvnApp {
                            stats: Some(q),
                            ..self
                        }),
                        Start::TooFar => jobs.len() == 0 && after == self,
                        Start::Go(list) => {
                            &&& self.asking(q, list@, after, jobs)
                            &&& after.hint@ == SvnApp::asking_text(list@.len() as int)
                            &&& after == (SvnApp {
                                stats: Some(q),
                                pool: after.pool,
                                hint: after.hint,
                                ..self
                            })
                        },
                    },
            }
        }
    }

    /// Begins the query of the statistics page. The directories are asked one by one.
    pub fn spawn_stats(&mut self, today: Date, is_file: bool) -> (r: Vec<Job>)
        requires
            old(self).wf(),
            today.wf(),
            today.number() - 364 >= date::first_number(),
            old(self).stats matches Some(s) ==> s.epoch < u64::MAX,
        ensures
            final(self).wf(),
            old(self).stats_begun(today, is_file, *final(self), r@),
    {
        if self.svn_or_none(is_file).is_none() {
            return Vec::new();
        }
        let mut page = match self.stats.take() {
            Some(page) => page,
            None => {
                return Vec::new();
            },
        };
        let ghost first = page;
        let dirs = self.cfg.dirs.len();
        let begun = page.start(dirs, self.login.svn_user.as_str(), today);
        assert(old(self).stats == Some(first));
        assert(first.started(
            old(self).cfg.dirs@.len() as usize,
            old(self).login.svn_user@,
            today,
            page,
            begun,
        ));
        match begun {
            Start::Refused(why) => {
                self.hint = why;
                self.stats = Some(page);
                Vec::new()
            },
            Start::NoUser => {
                self.stats = Some(page);
                Vec::new()
            },
            Start::TooFar => {
                self.stats = Some(page);
                Vec::new()
            },
            Start::Go(list) => {
                assert forall|i: int| 0 <= i < list@.len() implies self.has_dir(
                    #[trigger] list@[i],
                ) by {
                    assert(list@ == asked(first.dir, dirs));
                }
                let ghost before = *self;
                let jobs = self.ask_all(
                    &list,
                    page.epoch,
                    page.revspec.as_str(),
                    page.author.as_str(),
                );
                let ghost after = *self;
                assert(before.asking(page, list@, after, jobs@));
                if list.len() == 0 {
                    self.hint("没有可统计的目录");
                } else {
                    let n = text::count(list.len());
                    self.hint = text::join3("正在统计 ", n.as_str(), " 个目录的本人提交 …");
                }
                self.stats = Some(page);
                proof {
                    lemma_asking_same(before, *old(self), page, list@, after, *self, jobs@);
                }
                jobs
            },
        }
    }
}

proof fn lemma_asking_same(
    a: SvnApp,
    b: SvnApp,
    page: StatsPage,
    list: Seq<usize>,
    after_a: SvnApp,
    after_b: SvnApp,
    jobs: Seq<Job>,
)
    requires
        a.asking(page, list, after_a, jobs),
        a.cfg == b.cfg,
        a.svn == b.svn,
        a.pool == b.pool,
        after_a.pool == after_b.pool,
    ensures
        b.asking(page, list, after_b, jobs),
{
    assert forall|i: int| 0 <= i < list.len() implies b.stats_job(
        page,
        list[i],
        #[trigger] jobs[i],
    ) by {
        assert(a.stats_job(page, list[i], jobs[i]));
    }
    assert forall|i: int| 0 <= i < list.len() implies b.stats_task(
        #[trigger] list[i],
        after_b.pool.tasks@[b.pool.tasks@.len() + i],
    ) by {
        assert(a.stats_task(list[i], after_a.pool.tasks@[a.pool.tasks@.len() + i]));
    }
}

/// The directory that a click leads to, and the others beside it.
spec fn way(to: (usize, Vec<usize>)) -> (usize, Seq<usize>) {
    (to.0, to.1@)
}

impl SvnApp {
    /// The page of the statistics leads from `span` to the directory in `to`, beside which there
    /// are the others in it.
    pub open spec fn drills_to(self, span: (Date, Date), to: Option<(usize, Seq<usize>)>) -> bool {
        match self.stats {
            None => to is None,
            Some(page) => if page.dir != ALL_DIRS {
                to matches Some(d) && d.0 == page.dir && d.1.len() == 0
            } else {
                let commits = collected(page.done@, Some(span));
                match to {
                    Some(d) => is_busiest(commits, d.0) && are_others(commits, d.0, d.1),
                    None => commits.len() == 0 || flat(page.done@).len() > usize::MAX,
                }
            },
        }
    }

    /// The labels of directories.
    pub open spec fn labels_at(self, list: Seq<usize>) -> Seq<Seq<char>> {
        Seq::new(list.len(), |i: int| self.label_at(list[i] as int))
    }

    fn labels_of(&self, list: &Vec<usize>) -> (r: Vec<String>)
        ensures
            text::views(r@) == self.labels_at(list@),
    {
        let mut out: Vec<String> = Vec::new();
        let mut i: usize = 0;
        while i < list.len()
            invariant
                i <= list.len(),
                out@.len() == i,
                forall|k: int|
                    0 <= k < i ==> (#[trigger] out@[k])@ == self.label_at(list@[k] as int),
            decreases list.len() - i,
        {
            let label = self.dir_label(list[i]);
            out.push(label);
            i += 1;
        }
        assert(text::views(out@) =~= self.labels_at(list@));
        out
    }

    /// From `self` to `after`: a click on the days `span` of a chart was followed.
    pub open spec fn drilled(
        self,
        span: (Date, Date),
        is_file: bool,
        after: SvnApp,
        wishes: Seq<Wish>,
    ) -> bool {
        if self.stats is None {
            wishes.len() == 0 && after == self
        } else {
            exists|to: Option<(usize, Seq<usize>)>| #[trigger]
                self.drills_to(span, to) && match to {
                    None => wishes.len() == 0 && hinted(
                        self,
                        "这一格里没有本人的提交，没有可跳转的记录。"@,
                        after,
                    ),
                    Some(d) => {
                        &&& after.hint@ == drill_text(
                            self.label_at(d.0 as int),
                            span,
                            self.labels_at(d.1),
                        )
                        &&& exists|open: SvnApp| #[trigger]
                            self.history_opened(d.0, Some(span), is_file, open, wishes) && after
                                == (SvnApp { hint: after.hint, ..open })
                    },
                }
        }
    }

    /// Follows a click on the days `span` of a chart: to the history of the directory, or of the
    /// one with the most files where all of them are shown.
    pub fn drill_into(&mut self, span: (Date, Date), is_file: bool) -> (r: Vec<Wish>)
        requires
            old(self).wf(),
            span.0.wf(),
            span.1.wf(),
        ensures
            final(self).wf(),
            old(self).drilled(span, is_file, *final(self), r@),
    {
        let to = match &self.stats {
            None => {
                return Vec::new();
            },
            Some(page) => page.drill(span),
        };
        let ghost goal: Option<(usize, Seq<usize>)> = if to is Some {
            Some(way(to->Some_0))
        } else {
            None
        };
        assert(old(self).drills_to(span, goal));
        match to {
            None => {
                self.hint("这一格里没有本人的提交，没有可跳转的记录。");
                Vec::new()
            },
            Some((index, rest)) => {
                let label = self.dir_label(index);
                let others = self.labels_of(&rest);
                let line = drill_line(label.as_str(), span, &others);
                let wishes = self.open_history_in(index, Some(span), is_file);
                let ghost open = *self;
                assert(old(self).history_opened(index, Some(span), is_file, open, wishes@));
                self.hint = line;
                wishes
            },
        }
    }

    /// The reminder before a commit that the directory is not up to date; nothing where it is, or
    /// where that is not known.
    pub fn not_up_to_date_hint(&self, index: usize) -> (r: Option<String>)
        ensures
            ({
                let want = if index < self.dirs@.len() {
                    let v = self.dirs@[index as int];
                    outdated_note(v.out_of_date, v.remote_rev@)
                } else {
                    None
                };
                match r {
                    Some(t) => want == Some(t@),
                    None => want is None,
                }
            }),
    {
        if index < self.dirs.len() {
            outdated_hint(self.dirs[index].out_of_date, self.dirs[index].remote_rev.as_str())
        } else {
            None
        }
    }
}

/// What the reminder says that directory `index` is not up to date.
pub open spec fn reminder(a: SvnApp, index: usize) -> Option<Seq<char>> {
    if index < a.dirs@.len() {
        outdated_note(a.dirs@[index as int].out_of_date, a.dirs@[index as int].remote_rev@)
    } else {
        None
    }
}

/// From `a` to `b`: the commit button was pressed on a page that is `p` before and `q` after, and
/// `r` is to be committed now.
pub open spec fn commit_pressed(
    a: SvnApp,
    p: CommitPage,
    b: SvnApp,
    q: CommitPage,
    r: Option<CommitPlan>,
) -> bool {
    let sv = status_views(p.entries@);
    let plan = PlanView {
        targets: picked(sv, Pick::Checked),
        adds: picked(sv, Pick::CheckedNew),
        deletes: picked(sv, Pick::CheckedMissing),
    };
    let n = text::decimal(plan.targets.len() as int);
    &&& q == (CommitPage { confirm_outdated: q.confirm_outdated, ..p })
    &&& match commit_block(written(a.pool.tasks@, p.dir), plan.targets.len() as int) {
        Some(why) => r is None && hinted(a, why, b) && q.confirm_outdated == p.confirm_outdated,
        None => match reminder(a, p.dir) {
            Some(note) => if !p.confirm_outdated {
                r is None && q.confirm_outdated && hinted(
                    a,
                    note
                        + "——再点一次「仍要提交」才会按本地版本上传，或点上面的提示条先更新到最新"@,
                    b,
                )
            } else {
                &&& r matches Some(it) && it@ == plan
                &&& !q.confirm_outdated
                &&& out_views(b.output@) == pushed(
                    out_views(a.output@),
                    Level::Warning,
                    note + "，建议先「↓ 更新」再上传"@,
                )
                &&& hinted(
                    (SvnApp { output: b.output, ..a }),
                    note + "；仍按本地当前版本提交 "@ + n + " 项 …"@,
                    b,
                )
            },
            None => {
                &&& r matches Some(it) && it@ == plan
                &&& !q.confirm_outdated
                &&& hinted(
                    a,
                    "正在提交 "@ + n + " 项"@ + staging_text(
                        plan.adds.len() as int,
                        plan.deletes.len() as int,
                    ) + " …"@,
                    b,
                )
            },
        },
    }
}

impl SvnApp {
    /// A press of the commit button of `page`. Returns what is to be committed now.
    pub fn press_commit(&mut self, page: &mut CommitPage) -> (r: Option<CommitPlan>)
        ensures
            commit_pressed(*old(self), *old(page), *final(self), *final(page), r),
    {
        let plan = page.plan();
        let outdated = self.not_up_to_date_hint(page.dir);
        let writing = self.pool.is_writing(page.dir);
        match page.press_commit(writing, &outdated) {
            Press::Refused(t) => {
                self.hint(t.as_str());
                None
            },
            Press::Armed(t) => {
                self.hint(t.as_str());
                None
            },
            Press::Begin { warning, hint } => {
                if let Some(w) = &warning {
                    self.push(Level::Warning, w.as_str());
                }
                self.hint(hint.as_str());
                Some(plan)
            },
        }
    }
}

/// Nothing is committed on top of a working copy that is known not to be up to date unless the
/// button was pressed twice: the first press only says what is at stake, the second commits.
pub proof fn law_outdated_commits_take_two_presses(
    a: SvnApp,
    p: CommitPage,
    b: SvnApp,
    q: CommitPage,
    first: Option<CommitPlan>,
    c: SvnApp,
    s: CommitPage,
    second: Option<CommitPlan>,
)
    requires
        commit_pressed(a, p, b, q, first),
        commit_pressed(b, q, c, s, second),
        reminder(a, p.dir) is Some,
        !p.confirm_outdated,
    ensures
        first is None,
        !written(a.pool.tasks@, p.dir) && picked(status_views(p.entries@), Pick::Checked).len() > 0
            ==> second is Some && !s.confirm_outdated,
{
}

/// How many tasks of `kind` run for `dir` among the first `n`.
pub open spec fn task_count(tasks: Seq<Task>, kind: Kind, dir: usize, n: int) -> int
    decreases n,
{
    if n <= 0 {
        0
    } else {
        task_count(tasks, kind, dir, n - 1) + if tasks[n - 1].kind == kind && tasks[n - 1].dir
            == dir {
            1int
        } else {
            0
        }
    }
}

proof fn lemma_none_runs(tasks: Seq<Task>, kind: Kind, dir: usize, n: int)
    requires
        0 <= n <= tasks.len(),
        !runs(tasks, kind, dir),
    ensures
        task_count(tasks, kind, dir, n) == 0,
    decreases n,
{
    if n > 0 {
        lemma_none_runs(tasks, kind, dir, n - 1);
        assert(!(tasks[n - 1].kind == kind && tasks[n - 1].dir == dir));
    }
}

proof fn lemma_same_count(a: Seq<Task>, b: Seq<Task>, kind: Kind, dir: usize, n: int)
    requires
        0 <= n <= a.len(),
        n <= b.len(),
        forall|i: int| 0 <= i < n ==> a[i] == b[i],
    ensures
        task_count(a, kind, dir, n) == task_count(b, kind, dir, n),
    decreases n,
{
    if n > 0 {
        lemma_same_count(a, b, kind, dir, n - 1);
    }
}

/// A task that only begins while none of its kind runs for the directory is the only one of it.
pub proof fn law_one_at_a_time(a: SvnApp, kind: Kind, dir: usize, label: Seq<char>, b: SvnApp)
    requires
        !runs(a.pool.tasks@, kind, dir),
        began(a, kind, dir, label, b),
    ensures
        task_count(b.pool.tasks@, kind, dir, b.pool.tasks@.len() as int) == 1,
{
    let n = a.pool.tasks@.len() as int;
    assert forall|i: int| 0 <= i < n implies a.pool.tasks@[i] == b.pool.tasks@[i] by {
        assert(b.pool.tasks@.drop_last()[i] == b.pool.tasks@[i]);
    }
    lemma_same_count(a.pool.tasks@, b.pool.tasks@, kind, dir, n);
    lemma_none_runs(a.pool.tasks@, kind, dir, n);
}

/// A click on the days of a chart, where the statistics are about one directory, opens its history
/// over exactly those days, which then also stand in the fields; its records of those days are
/// asked for.
pub proof fn law_clicks_open_the_history_of_the_days(
    a: SvnApp,
    page: StatsPage,
    span: (Date, Date),
    is_file: bool,
    b: SvnApp,
    wishes: Seq<Wish>,
)
    requires
        a.stats == Some(page),
        page.dir != ALL_DIRS,
        a.usable(is_file),
        a.drilled(span, is_file, b, wishes),
    ensures
        b.page == Page::History,
        b.history matches Some(h) && h.dir == page.dir && h.range == Some(span) && h.custom_from@
            == date_text(span.0) && h.custom_to@ == date_text(span.1) && h.preset == Some(
            RangePreset::Custom,
        ) && wishes.len() == 1 && (wishes[0] matches Wish::Log { dir, mine, unlimited, range }
            && dir == page.dir && mine == h.mine && !unlimited && range == Some(span)),
        b.stats == a.stats && b.cfg == a.cfg && b.dirs == a.dirs,
{
    let to = choose|to: Option<(usize, Seq<usize>)>| #[trigger]
        a.drills_to(span, to) && match to {
            None => wishes.len() == 0 && hinted(
                a,
                "这一格里没有本人的提交，没有可跳转的记录。"@,
                b,
            ),
            Some(d) => {
                &&& b.hint@ == drill_text(a.label_at(d.0 as int), span, a.labels_at(d.1))
                &&& exists|open: SvnApp| #[trigger]
                    a.history_opened(d.0, Some(span), is_file, open, wishes) && b == (SvnApp {
                        hint: b.hint,
                        ..open
                    })
            },
        };
    let d = to->Some_0;
    let open = choose|open: SvnApp| #[trigger]
        a.history_opened(d.0, Some(span), is_file, open, wishes) && b == (SvnApp {
            hint: b.hint,
            ..open
        });
    let h = open.history->Some_0;
    assert(a.history_page(d.0, Some(span), h));
    let new = choose|new: HistoryPage| #[trigger]
        new.opens(
            d.0,
            a.label_at(d.0 as int),
            a.cfg.log_limit,
            a.login.svn_user@,
            a.cfg.history_only_mine,
        ) && {
            &&& h.custom_from@ == date_text(span.0)
            &&& h.custom_to@ == date_text(span.1)
            &&& h == (HistoryPage {
                preset: Some(RangePreset::Custom),
                custom_from: h.custom_from,
                custom_to: h.custom_to,
                range: Some(span),
                ..new
            })
        };
    assert(new.dir == d.0);
}

/// Every directory that a query asks is asked once, in order, at its newest revision, for the
/// commits of the same author and with the number of the query; as many tasks begin, and those that
/// ran before run on.
pub proof fn law_queries_ask_each_directory(
    a: SvnApp,
    page: StatsPage,
    list: Seq<usize>,
    b: SvnApp,
    jobs: Seq<Job>,
    i: int,
)
    requires
        a.asking(page, list, b, jobs),
        0 <= i < list.len(),
    ensures
        jobs.len() == list.len(),
        jobs[i].dir == list[i],
        jobs[i].act matches Act::Stats { epoch, target, spec, author } && epoch == page.epoch
            && text::begins(target@, a.cfg.dirs@[list[i] as int].path@) && text::ends(
            target@,
            seq!['@', 'H', 'E', 'A', 'D'],
        ) && target@.len() == a.cfg.dirs@[list[i] as int].path@.len() + 5 && spec@ == page.revspec@
            && author@ == page.author@,
        b.pool.tasks@.len() == a.pool.tasks@.len() + list.len(),
        b.pool.tasks@[a.pool.tasks@.len() + i].kind == Kind::Stats,
        forall|k: int|
            0 <= k < a.pool.tasks@.len() ==> #[trigger] b.pool.tasks@[k] == a.pool.tasks@[k],
{
    reveal_strlit("@HEAD");
    assert("@HEAD"@ =~= seq!['@', 'H', 'E', 'A', 'D']);
    assert(a.stats_job(page, list[i], jobs[i]));
    assert(a.stats_task(list[i], b.pool.tasks@[a.pool.tasks@.len() + i]));
    let p = a.path_at(list[i]);
    let t = p + "@HEAD"@;
    assert(t.subrange(0, p.len() as int) =~= p);
    assert(t.subrange(t.len() - 5, t.len() as int) =~= "@HEAD"@);
    let n = a.pool.tasks@.len() as int;
    assert forall|k: int| 0 <= k < n implies #[trigger] b.pool.tasks@[k] == a.pool.tasks@[k] by {
        assert(b.pool.tasks@.take(n)[k] == b.pool.tasks@[k]);
    }
}

} // verus!

