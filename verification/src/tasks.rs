//! How background tasks begin: what has to hold, what is said, and what a task takes along.

use vstd::prelude::*;
use crate::client::Svn;
use crate::commit::{picked, staged_by, CommitPage};
use crate::date;
use crate::date::Date;
use crate::jobs::{busy, runs, Kind};
use crate::model::{DirView, Maintain, Relocate};
use crate::refresh::Refresh;
use crate::state::{Login, SvnApp, Timing};
use crate::stats::{revisions_for, revspec};
use crate::stats_page::{fits_calendar, span_fits};
use crate::svn::{status_views, LogEntry, LogPath};
use crate::text;
use crate::upload::{CommitPlan, CommitRun};
use crate::windows::{file_url, url_of, FileDiff, FileLog};
use crate::work::{Act, Job};

verus! {

/// From `a` to `b`: a task was entered into the table.
pub open spec fn began(a: SvnApp, kind: Kind, dir: usize, label: Seq<char>, b: SvnApp) -> bool {
    &&& b.pool.tasks@.len() == a.pool.tasks@.len() + 1
    &&& b.pool.tasks@.drop_last() == a.pool.tasks@
    &&& b.pool.tasks@.last().kind == kind
    &&& b.pool.tasks@.last().dir == dir
    &&& b.pool.tasks@.last().label@ == label
    &&& b == (SvnApp { pool: b.pool, ..a })
}

/// From `a` to `b`: only the status line changed.
pub open spec fn hinted(a: SvnApp, hint: Seq<char>, b: SvnApp) -> bool {
    b.hint@ == hint && b == (SvnApp { hint: b.hint, ..a })
}

/// From `a` to `b`: there is no client, and the status line says what cannot be done without.
pub open spec fn refused(a: SvnApp, hint: Seq<char>, b: SvnApp) -> bool {
    b.hint@ == hint && b == (SvnApp { hint: b.hint, show_settings: true, ..a })
}

impl SvnApp {
    /// The path of directory `index`.
    pub open spec fn path_at(self, index: usize) -> Seq<char> {
        self.cfg.dirs@[index as int].path@
    }

    /// `index` is a directory of the list.
    pub open spec fn has_dir(self, index: usize) -> bool {
        index < self.cfg.dirs@.len()
    }

    /// The root of the repository of directory `index`; empty where it is not known.
    pub open spec fn root_at(self, index: usize) -> Seq<char> {
        if index < self.dirs@.len() {
            match self.dirs@[index as int].info {
                Some(i) => i.repos_root@,
                None => Seq::empty(),
            }
        } else {
            Seq::empty()
        }
    }

    /// How many records of a history are read.
    pub open spec fn records_wanted(self) -> int {
        if self.cfg.log_limit < 1 {
            1
        } else if self.cfg.log_limit > 2000 {
            2000
        } else {
            self.cfg.log_limit as int
        }
    }

    fn records_limit(&self) -> (r: i64)
        ensures
            r == self.records_wanted(),
    {
        if self.cfg.log_limit < 1 {
            1
        } else if self.cfg.log_limit > 2000 {
            2000
        } else {
            self.cfg.log_limit
        }
    }

    fn repository_root(&self, index: usize) -> (r: String)
        ensures
            r@ == self.root_at(index),
    {
        if index < self.dirs.len() {
            match &self.dirs[index].info {
                Some(i) => i.repos_root.clone(),
                None => String::new(),
            }
        } else {
            String::new()
        }
    }

    fn enter(&mut self, kind: Kind, dir: usize, label: String)
        ensures
            began(*old(self), kind, dir, label@, *final(self)),
    {
        self.pool.spawn(kind, dir, label);
        assert(self.pool.tasks@.drop_last() =~= old(self).pool.tasks@);
    }

    // ------------------------------------------------------------ the client

    /// Begins the search for the client, unless one is under way. Returns whether to search.
    pub fn spawn_detect(&mut self) -> (r: bool)
        ensures
            r == !runs(old(self).pool.tasks@, Kind::DetectSvn, usize::MAX),
            !r ==> *final(self) == *old(self),
            r ==> final(self).hint@ == "正在自动寻找 svn.exe …"@ && began(
                (SvnApp {
                    hint: final(self).hint,
                    login: Login { probing: true, refresh_after_detect: true, ..old(self).login },
                    ..*old(self)
                }),
                Kind::DetectSvn,
                usize::MAX,
                "寻找 svn.exe"@,
                *final(self),
            ),
    {
        if self.pool.has(Kind::DetectSvn, usize::MAX) {
            return false;
        }
        self.login.probing = true;
        self.login.refresh_after_detect = true;
        self.hint("正在自动寻找 svn.exe …");
        self.enter(Kind::DetectSvn, usize::MAX, "寻找 svn.exe".to_owned());
        true
    }

    /// The root of the first repository that is known among the directories from `i` on; empty
    /// where none is.
    pub open spec fn first_root(dirs: Seq<DirView>, i: int) -> Seq<char>
        decreases dirs.len() - i,
    {
        if i >= dirs.len() {
            Seq::empty()
        } else {
            match dirs[i].info {
                Some(info) => info.repos_root@,
                None => SvnApp::first_root(dirs, i + 1),
            }
        }
    }

    /// Some directory was checked.
    pub open spec fn any_checked(dirs: Seq<DirView>) -> bool {
        exists|i: int| 0 <= i < dirs.len() && (#[trigger] dirs[i]).remote is Some
    }

    /// It is time to ask who is logged in: once, with a client, and only after a first check, so
    /// that the account of the right server is picked.
    pub open spec fn asks_user(self, is_file: bool) -> bool {
        &&& !self.login.user_probed
        &&& self.usable(is_file)
        &&& !runs(self.pool.tasks@, Kind::AuthUser, usize::MAX)
        &&& SvnApp::first_root(self.dirs@, 0).len() > 0 || SvnApp::any_checked(self.dirs@)
    }

    /// Begins to ask who is logged in. Returns the address whose account counts, where it is time
    /// to ask.
    pub fn spawn_auth_user(&mut self, is_file: bool) -> (r: Option<String>)
        ensures
            match r {
                Some(url) => {
                    &&& old(self).asks_user(is_file)
                    &&& url@ == SvnApp::first_root(old(self).dirs@, 0)
                    &&& began(
                        (SvnApp {
                            login: Login { user_probed: true, ..old(self).login },
                            ..*old(self)
                        }),
                        Kind::AuthUser,
                        usize::MAX,
                        "本机 svn 登录人"@,
                        *final(self),
                    )
                },
                None => !old(self).asks_user(is_file) && *final(self) == *old(self),
            },
    {
        let mut url = String::new();
        let mut found = false;
        let mut checked = false;
        let mut i: usize = 0;
        assert(url@ =~= Seq::empty());
        while i < self.dirs.len()
            invariant
                i <= self.dirs.len(),
                *self == *old(self),
                !found ==> url@ == Seq::<char>::empty() && SvnApp::first_root(self.dirs@, 0)
                    == SvnApp::first_root(self.dirs@, i as int),
                found ==> url@ == SvnApp::first_root(self.dirs@, 0),
                checked == exists|k: int| 0 <= k < i && (#[trigger] self.dirs@[k]).remote is Some,
            decreases self.dirs.len() - i,
        {
            if !found {
                if let Some(info) = &self.dirs[i].info {
                    url = info.repos_root.clone();
                    found = true;
                }
            }
            if self.dirs[i].remote.is_some() {
                checked = true;
                assert(self.dirs@[i as int].remote is Some);
            }
            i += 1;
        }
        if self.login.user_probed || !self.svn.available(is_file) || self.pool.has(
            Kind::AuthUser,
            usize::MAX,
        ) || (url.as_str().is_empty() && !checked) {
            return None;
        }
        self.login.user_probed = true;
        self.enter(Kind::AuthUser, usize::MAX, "本机 svn 登录人".to_owned());
        Some(url)
    }

    // ------------------------------------------------------------ checks

    /// A check of `index` waits already.
    pub open spec fn check_waits(self, index: usize) -> bool {
        exists|i: int|
            0 <= i < self.timing.pending_refresh@.len() && (
            #[trigger] self.timing.pending_refresh@[i]).0 == index
    }

    fn is_waiting(&self, index: usize) -> (r: bool)
        ensures
            r == self.check_waits(index),
    {
        let mut i: usize = 0;
        while i < self.timing.pending_refresh.len()
            invariant
                i <= self.timing.pending_refresh.len(),
                forall|k: int|
                    0 <= k < i ==> (#[trigger] self.timing.pending_refresh@[k]).0 != index,
            decreases self.timing.pending_refresh.len() - i,
        {
            if self.timing.pending_refresh[i].0 == index {
                return true;
            }
            i += 1;
        }
        false
    }

    /// What is known of a directory that does not exist.
    pub open spec fn is_gone(before: DirView, v: DirView) -> bool {
        &&& v.remote_msg@ == "目录不存在（可能已被移动或删除）"@
        &&& v == (DirView {
            info: None,
            remote: Some(false),
            remote_msg: v.remote_msg,
            ..before
        })
    }

    /// From `self` to `after`: a check of directory `index` began, or was put off, or cannot be.
    pub open spec fn refresh_begun(
        self,
        index: usize,
        quiet: bool,
        is_file: bool,
        is_dir: bool,
        after: SvnApp,
        r: Option<(Svn, Refresh)>,
    ) -> bool {
        if !self.usable(is_file) {
            r is None && after.asks_for_client(self)
        } else if !self.has_dir(index) {
            r is None && after == self
        } else if runs(self.pool.tasks@, Kind::Refresh, index) {
            &&& r is None
            &&& after.timing.pending_refresh@ == (if self.check_waits(index) {
                self.timing.pending_refresh@
            } else {
                self.timing.pending_refresh@.push((index, quiet))
            })
            &&& after == (SvnApp {
                timing: Timing { pending_refresh: after.timing.pending_refresh, ..self.timing },
                ..self
            })
        } else if !is_dir {
            &&& r is None
            &&& after.dirs@.len() == self.dirs@.len()
            &&& SvnApp::is_gone(self.dirs@[index as int], after.dirs@[index as int])
            &&& forall|i: int|
                0 <= i < self.dirs@.len() && i != index ==> #[trigger] after.dirs@[i]
                    == self.dirs@[i]
            &&& after == (SvnApp { dirs: after.dirs, ..self })
        } else {
            &&& r matches Some((svn, check)) && svn == self.svn && check.dir == index
                && check.label@ == self.label_at(index as int) && check.path@ == self.path_at(index)
                && check.quiet == quiet && check.fresh()
            &&& began(
                self,
                Kind::Refresh,
                index,
                self.label_at(index as int) + " 检测"@,
                after,
            )
        }
    }

    /// Begins a check of a directory. Where one runs already, another follows it: the one that
    /// runs may have read what is no longer true.
    pub fn spawn_refresh(&mut self, index: usize, quiet: bool, is_file: bool, is_dir: bool) -> (r:
        Option<(Svn, Refresh)>)
        requires
            old(self).wf(),
        ensures
            final(self).wf(),
            old(self).refresh_begun(index, quiet, is_file, is_dir, *final(self), r),
    {
        let svn = match self.svn_or_none(is_file) {
            Some(svn) => svn,
            None => {
                return None;
            },
        };
        let path = match self.dir_path(index) {
            Some(path) => path,
            None => {
                return None;
            },
        };
        if self.pool.has(Kind::Refresh, index) {
            if !self.is_waiting(index) {
                self.timing.pending_refresh.push((index, quiet));
            }
            return None;
        }
        if !is_dir {
            self.dirs[index].info = None;
            self.dirs[index].remote = Some(false);
            self.dirs[index].remote_msg = "目录不存在（可能已被移动或删除）".to_owned();
            return None;
        }
        let label = self.dir_label(index);
        self.enter(Kind::Refresh, index, text::join2(label.as_str(), " 检测"));
        Some((svn, Refresh::new(index, label.as_str(), path.as_str(), quiet)))
    }
}

/// The checks that began, out of the first `n` attempts.
pub open spec fn begun_among(tries: Seq<Option<(Svn, Refresh)>>, n: int) -> Seq<(Svn, Refresh)>
    decreases n,
{
    if n <= 0 {
        Seq::empty()
    } else {
        match tries[n - 1] {
            Some(job) => begun_among(tries, n - 1).push(job),
            None => begun_among(tries, n - 1),
        }
    }
}

/// The directories were taken one behind the other: number `i` led from `states[i]` to the state
/// behind it, and to `tries[i]`.
pub open spec fn refreshed_in_turn(
    states: Seq<SvnApp>,
    tries: Seq<Option<(Svn, Refresh)>>,
    is_file: bool,
    are_dirs: Seq<bool>,
    n: int,
) -> bool {
    &&& states.len() == n + 1
    &&& tries.len() == n
    &&& forall|i: int|
        0 <= i < n ==> #[trigger] states[i].refresh_begun(
            i as usize,
            false,
            is_file,
            are_dirs[i],
            states[i + 1],
            tries[i],
        )
}

proof fn lemma_begun_more(
    tries: Seq<Option<(Svn, Refresh)>>,
    more: Option<(Svn, Refresh)>,
    n: int,
)
    requires
        0 <= n <= tries.len(),
    ensures
        begun_among(tries.push(more), n) == begun_among(tries, n),
    decreases n,
{
    if n > 0 {
        lemma_begun_more(tries, more, n - 1);
    }
}

impl SvnApp {
    /// Begins a check of every directory, one behind the other. `are_dirs` tells for each of them
    /// whether it exists.
    pub fn spawn_all_refresh(&mut self, is_file: bool, are_dirs: &Vec<bool>) -> (r: Vec<
        (Svn, Refresh),
    >)
        requires
            old(self).wf(),
            are_dirs@.len() == old(self).cfg.dirs@.len(),
        ensures
            final(self).wf(),
            ({
                let n = old(self).cfg.dirs@.len() as int;
                exists|states: Seq<SvnApp>, tries: Seq<Option<(Svn, Refresh)>>|
                    {
                        &&& #[trigger] refreshed_in_turn(states, tries, is_file, are_dirs@, n)
                        &&& states[0] == *old(self)
                        &&& states[n] == *final(self)
                        &&& r@ == begun_among(tries, n)
                    }
            }),
    {
        let n = self.cfg.dirs.len();
        let mut jobs: Vec<(Svn, Refresh)> = Vec::new();
        let ghost mut states: Seq<SvnApp> = seq![*self];
        let ghost mut tries: Seq<Option<(Svn, Refresh)>> = Seq::empty();
        let ghost first = *self;
        let mut i: usize = 0;
        while i < n
            invariant
                i <= n,
                n == are_dirs@.len(),
                self.wf(),
                refreshed_in_turn(states, tries, is_file, are_dirs@, i as int),
                states[0] == first,
                states[i as int] == *self,
                jobs@ == begun_among(tries, i as int),
            decreases n - i,
        {
            let ghost old_states = states;
            let ghost old_tries = tries;
            let job = self.spawn_refresh(i, false, is_file, are_dirs[i]);
            proof {
                states = states.push(*self);
                tries = tries.push(job);
                assert forall|k: int| 0 <= k < i + 1 implies #[trigger] states[k].refresh_begun(
                    k as usize,
                    false,
                    is_file,
                    are_dirs@[k],
                    states[k + 1],
                    tries[k],
                ) by {
                    if k < i {
                        assert(old_states[k].refresh_begun(
                            k as usize,
                            false,
                            is_file,
                            are_dirs@[k],
                            old_states[k + 1],
                            old_tries[k],
                        ));
                    }
                }
                lemma_begun_more(old_tries, job, i as int);
            }
            if let Some(job) = job {
                jobs.push(job);
            }
            i += 1;
        }
        jobs
    }
}

impl Refresh {
    /// The check has not begun.
    pub open spec fn fresh(self) -> bool {
        &&& self.info is None
        &&& self.remote == Some(true)
        &&& self.remote_msg@ == "已连接到仓库"@
        &&& self.remote_rev@.len() == 0
        &&& self.last_rev@.len() == 0
        &&& self.last_author@.len() == 0
        &&& self.last_date@.len() == 0
    }
}

// ---------------------------------------------------------------- commands on a directory

impl SvnApp {
    /// The client and the path of a directory. Without a client the settings open; a directory
    /// that is not in the list has no path.
    fn client_and_path(&mut self, index: usize, is_file: bool) -> (r: Option<(Svn, String)>)
        ensures
            match r {
                Some((svn, path)) => {
                    &&& old(self).usable(is_file)
                    &&& old(self).has_dir(index)
                    &&& svn == old(self).svn
                    &&& path@ == old(self).path_at(index)
                    &&& *final(self) == *old(self)
                },
                None => if !old(self).usable(is_file) {
                    final(self).asks_for_client(*old(self))
                } else {
                    !old(self).has_dir(index) && *final(self) == *old(self)
                },
            },
    {
        let svn = match self.svn_or_none(is_file) {
            Some(svn) => svn,
            None => {
                return None;
            },
        };
        match self.dir_path(index) {
            Some(path) => Some((svn, path)),
            None => None,
        }
    }

    /// Begins an update.
    pub fn spawn_update(&mut self, index: usize, is_file: bool) -> (r: Option<Job>)
        ensures
            if !old(self).usable(is_file) {
                r is None && final(self).asks_for_client(*old(self))
            } else if !old(self).has_dir(index) {
                r is None && *final(self) == *old(self)
            } else {
                let name = old(self).label_at(index as int);
                &&& r matches Some(job) && job.dir == index && job.svn == old(self).svn && (
                job.act matches Act::Update { label, path } && label@ == name && path@ == old(
                    self,
                ).path_at(index))
                &&& began(*old(self), Kind::Update, index, name + " 更新"@, *final(self))
            },
    {
        let (svn, path) = match self.client_and_path(index, is_file) {
            Some(x) => x,
            None => {
                return None;
            },
        };
        let label = self.dir_label(index);
        self.enter(Kind::Update, index, text::join2(label.as_str(), " 更新"));
        Some(Job { dir: index, svn, act: Act::Update { label, path } })
    }

    /// Begins to read the changes of a directory, unless that is under way.
    pub fn spawn_status(&mut self, index: usize, quiet: bool, is_file: bool) -> (r: Option<Job>)
        ensures
            if !old(self).usable(is_file) {
                r is None && final(self).asks_for_client(*old(self))
            } else if !old(self).has_dir(index) || runs(
                old(self).pool.tasks@,
                Kind::Status,
                index,
            ) {
                r is None && *final(self) == *old(self)
            } else {
                &&& r matches Some(job) && job.dir == index && job.svn == old(self).svn && (
                job.act matches Act::Status { path, quiet: q } && path@ == old(self).path_at(index)
                    && q == quiet)
                &&& began(
                    *old(self),
                    Kind::Status,
                    index,
                    old(self).label_at(index as int) + " 读取修改"@,
                    *final(self),
                )
            },
    {
        let (svn, path) = match self.client_and_path(index, is_file) {
            Some(x) => x,
            None => {
                return None;
            },
        };
        if self.pool.has(Kind::Status, index) {
            return None;
        }
        let label = self.dir_label(index);
        self.enter(Kind::Status, index, text::join2(label.as_str(), " 读取修改"));
        Some(Job { dir: index, svn, act: Act::Status { path, quiet } })
    }

    /// Begins to read the records of a directory, unless that is under way. `mine` asks for the
    /// own commits, `unlimited` for all of them, and `range` for those of some days, of which
    /// there are never too many. Days at the ends of the calendar cannot be asked for. The address
    /// of a range names the newest revision: left to itself the client would begin at that of the
    /// working copy.
    pub fn spawn_log_in(
        &mut self,
        index: usize,
        mine: bool,
        unlimited: bool,
        range: Option<(Date, Date)>,
        is_file: bool,
    ) -> (r: Option<Job>)
        requires
            date::span_wf(range),
        ensures
            if !old(self).usable(is_file) {
                r is None && final(self).asks_for_client(*old(self))
            } else if !old(self).has_dir(index) || runs(old(self).pool.tasks@, Kind::Log, index)
                || !span_fits(range) {
                r is None && *final(self) == *old(self)
            } else {
                &&& r matches Some(job) && job.dir == index && job.svn == old(self).svn && (
                job.act matches Act::Log { target, spec, limit, author, ranged } && spec@
                    == revisions_for(range) && ranged == range is Some && target@ == old(
                    self,
                ).path_at(index) + (if range is Some {
                    "@HEAD"@
                } else {
                    Seq::empty()
                }) && author@ == (if mine {
                    old(self).login.svn_user@
                } else {
                    Seq::empty()
                }) && limit == (if range is Some || unlimited {
                    0
                } else {
                    old(self).records_wanted()
                }))
                &&& began(
                    *old(self),
                    Kind::Log,
                    index,
                    old(self).label_at(index as int) + " 提交记录"@,
                    *final(self),
                )
            },
    {
        let (svn, path) = match self.client_and_path(index, is_file) {
            Some(x) => x,
            None => {
                return None;
            },
        };
        if self.pool.has(Kind::Log, index) || !fits_calendar(range) {
            return None;
        }
        let ranged = range.is_some();
        let limit: i64 = if ranged || unlimited {
            0
        } else {
            self.records_limit()
        };
        let spec = revspec(range);
        let author = if mine {
            self.login.svn_user.clone()
        } else {
            String::new()
        };
        let ghost place = path@;
        let mut target = path;
        if ranged {
            target.append("@HEAD");
        } else {
            assert(target@ =~= place + Seq::<char>::empty());
        }
        let label = self.dir_label(index);
        self.enter(Kind::Log, index, text::join2(label.as_str(), " 提交记录"));
        Some(Job { dir: index, svn, act: Act::Log { target, spec, limit, author, ranged } })
    }

    /// Begins to read what was changed in a path of the working copy.
    pub fn spawn_diff(&mut self, index: usize, path: String, ignore_white: bool, is_file: bool) -> (
    r: Option<Job>)
        ensures
            if !old(self).usable(is_file) {
                r is None && refused(*old(self), "没有可用的 svn.exe，无法读取差异"@, *final(self))
            } else {
                &&& r matches Some(job) && job.dir == index && job.svn == old(self).svn && job.act
                    == (Act::Diff { path, ignore_white })
                &&& began(*old(self), Kind::Diff, index, "查看差异"@, *final(self))
            },
    {
        let svn = match self.svn_or_none(is_file) {
            Some(svn) => svn,
            None => {
                self.hint("没有可用的 svn.exe，无法读取差异");
                return None;
            },
        };
        self.enter(Kind::Diff, index, "查看差异".to_owned());
        Some(Job { dir: index, svn, act: Act::Diff { path, ignore_white } })
    }

    /// What upkeep works on: what is checked on the commit page, where it works on single items.
    pub open spec fn upkeep_targets(self, op: Maintain) -> Seq<Seq<char>> {
        if op == Maintain::Add || op == Maintain::Delete {
            match self.commit {
                Some(c) => picked(status_views(c.entries@), staged_by(op)),
                None => Seq::empty(),
            }
        } else {
            Seq::empty()
        }
    }

    /// Begins upkeep of a directory.
    pub fn spawn_maintain(&mut self, index: usize, op: Maintain, is_file: bool) -> (r: Option<Job>)
        ensures
            if !old(self).usable(is_file) {
                r is None && final(self).asks_for_client(*old(self))
            } else if !old(self).has_dir(index) {
                r is None && *final(self) == *old(self)
            } else if (op == Maintain::Add || op == Maintain::Delete) && old(self).upkeep_targets(
                op,
            ).len() == 0 {
                r is None && hinted(
                    *old(self),
                    "请先勾选需要「"@ + op.title() + "」的条目"@,
                    *final(self),
                )
            } else {
                let name = old(self).label_at(index as int);
                &&& r matches Some(job) && job.dir == index && job.svn == old(self).svn && (
                job.act matches Act::Maintain { label, path, op: o, targets } && label@ == name
                    && path@ == old(self).path_at(index) && o == op && text::views(targets@)
                    == old(self).upkeep_targets(op))
                &&& final(self).hint@ == (if op == Maintain::Revert {
                    "已撤销该目录下的全部本地修改"@
                } else {
                    old(self).hint@
                })
                &&& op != Maintain::Revert ==> final(self).hint == old(self).hint
                &&& began(
                    (SvnApp { hint: final(self).hint, ..*old(self) }),
                    Kind::Maintain,
                    index,
                    name + " "@ + op.words(),
                    *final(self),
                )
            },
    {
        let (svn, path) = match self.client_and_path(index, is_file) {
            Some(x) => x,
            None => {
                return None;
            },
        };
        let single = match op {
            Maintain::Add => true,
            Maintain::Delete => true,
            _ => false,
        };
        let mut targets: Vec<String> = Vec::new();
        if single {
            if let Some(c) = &self.commit {
                targets = c.selected_targets(op);
            }
            assert(text::views(targets@) =~= self.upkeep_targets(op));
            if targets.len() == 0 {
                let t = text::join3("请先勾选需要「", op.label(), "」的条目");
                self.hint = t;
                return None;
            }
        } else {
            assert(text::views(targets@) =~= Seq::empty());
        }
        let reverts = match op {
            Maintain::Revert => true,
            _ => false,
        };
        if reverts {
            self.hint("已撤销该目录下的全部本地修改");
        }
        let label = self.dir_label(index);
        self.enter(Kind::Maintain, index, text::join3(label.as_str(), " ", op.command()));
        Some(Job { dir: index, svn, act: Act::Maintain { label, path, op, targets } })
    }

    /// Begins to change the address of a repository, unless something else is done with the
    /// directory.
    pub fn spawn_relocate(
        &mut self,
        index: usize,
        from: String,
        to: String,
        new_url: String,
        is_file: bool,
    ) -> (r: Option<Job>)
        ensures
            if !old(self).usable(is_file) {
                r is None && final(self).asks_for_client(*old(self))
            } else if !old(self).has_dir(index) {
                r is None && *final(self) == *old(self)
            } else if busy(old(self).pool.tasks@, index) {
                r is None && hinted(
                    *old(self),
                    "该目录还有任务在执行，请稍后再试"@,
                    *final(self),
                )
            } else {
                let name = old(self).label_at(index as int);
                &&& r matches Some(job) && job.dir == index && job.svn == old(self).svn && (
                job.act matches Act::Relocate { label, path, from: f, to: t, new_url: u } && label@
                    == name && path@ == old(self).path_at(index) && f == from && t == to && u
                    == new_url)
                &&& began(*old(self), Kind::Relocate, index, name + " 修改仓库地址"@, *final(self))
            },
    {
        let (svn, path) = match self.client_and_path(index, is_file) {
            Some(x) => x,
            None => {
                return None;
            },
        };
        if self.pool.is_busy(index) {
            self.hint("该目录还有任务在执行，请稍后再试");
            return None;
        }
        let label = self.dir_label(index);
        self.enter(Kind::Relocate, index, text::join2(label.as_str(), " 修改仓库地址"));
        Some(Job { dir: index, svn, act: Act::Relocate { label, path, from, to, new_url } })
    }

    // ------------------------------------------------------------ commits

    /// Begins a commit.
    pub fn spawn_commit(
        &mut self,
        index: usize,
        plan: CommitPlan,
        message: &str,
        is_file: bool,
    ) -> (r: Option<(Svn, String, CommitRun)>)
        ensures
            if !old(self).usable(is_file) {
                r is None && refused(
                    *old(self),
                    "无法提交：svn.exe 不可用，或该目录已从列表中移除"@,
                    *final(self),
                )
            } else if !old(self).has_dir(index) {
                r is None && hinted(
                    *old(self),
                    "无法提交：svn.exe 不可用，或该目录已从列表中移除"@,
                    *final(self),
                )
            } else if plan.targets@.len() == 0 {
                r is None && hinted(
                    *old(self),
                    "请先勾选要提交的文件（新增 / 修改 / 删除可以一起提交）"@,
                    *final(self),
                )
            } else if runs(old(self).pool.tasks@, Kind::Commit, index) {
                r is None && hinted(
                    *old(self),
                    "该目录的提交任务还在执行中，请等当前提交结束"@,
                    *final(self),
                )
            } else {
                let name = old(self).label_at(index as int);
                &&& r matches Some((svn, path, run)) && svn == old(self).svn && path@ == old(
                    self,
                ).path_at(index) && run.dir == index && run.label@ == name && run.message@
                    == message@ && run.update_after == old(self).cfg.update_after_commit && run.plan
                    == plan && run.listed@.len() == 0 && run.skipped@.len() == 0 && run.text@.len()
                    == 0
                &&& began(
                    (SvnApp {
                        commit: match old(self).commit {
                            Some(c) => Some(CommitPage { done_ok: false, ..c }),
                            None => None,
                        },
                        ..*old(self)
                    }),
                    Kind::Commit,
                    index,
                    name + " 提交 "@ + text::decimal(plan.targets@.len() as int) + " 项"@,
                    *final(self),
                )
            },
    {
        let (svn, path) = match self.client_and_path(index, is_file) {
            Some(x) => x,
            None => {
                self.hint("无法提交：svn.exe 不可用，或该目录已从列表中移除");
                return None;
            },
        };
        if plan.targets.len() == 0 {
            self.hint("请先勾选要提交的文件（新增 / 修改 / 删除可以一起提交）");
            return None;
        }
        if self.pool.has(Kind::Commit, index) {
            self.hint("该目录的提交任务还在执行中，请等当前提交结束");
            return None;
        }
        let label = self.dir_label(index);
        let n = text::count(plan.targets.len());
        self.commit = match self.commit.take() {
            Some(mut c) => {
                c.done_ok = false;
                Some(c)
            },
            None => None,
        };
        let mut task = text::join3(label.as_str(), " 提交 ", n.as_str());
        task.append(" 项");
        self.enter(Kind::Commit, index, task);
        let update_after = self.cfg.update_after_commit;
        Some((svn, path, CommitRun::new(index, label.as_str(), message, update_after, plan)))
    }

    /// Begins the upload of everything in a directory. Returns the client, the path and the name of
    /// the directory.
    pub fn spawn_upload_all(&mut self, index: usize, is_file: bool) -> (r: Option<
        (Svn, String, String),
    >)
        ensures
            if !old(self).usable(is_file) {
                r is None && refused(
                    *old(self),
                    "无法提交：svn.exe 不可用，或该目录已从列表中移除"@,
                    *final(self),
                )
            } else if !old(self).has_dir(index) {
                r is None && hinted(
                    *old(self),
                    "无法提交：svn.exe 不可用，或该目录已从列表中移除"@,
                    *final(self),
                )
            } else if runs(old(self).pool.tasks@, Kind::Commit, index) {
                r is None && hinted(
                    *old(self),
                    "该目录的提交任务还在执行中，请等当前提交结束"@,
                    *final(self),
                )
            } else {
                let name = old(self).label_at(index as int);
                &&& r matches Some((svn, path, label)) && svn == old(self).svn && path@ == old(
                    self,
                ).path_at(index) && label@ == name
                &&& began(*old(self), Kind::Commit, index, name + " 全部上传"@, *final(self))
            },
    {
        let (svn, path) = match self.client_and_path(index, is_file) {
            Some(x) => x,
            None => {
                self.hint("无法提交：svn.exe 不可用，或该目录已从列表中移除");
                return None;
            },
        };
        if self.pool.has(Kind::Commit, index) {
            self.hint("该目录的提交任务还在执行中，请等当前提交结束");
            return None;
        }
        let label = self.dir_label(index);
        self.enter(Kind::Commit, index, text::join2(label.as_str(), " 全部上传"));
        Some((svn, path, label))
    }
}

// ---------------------------------------------------------------- single files

impl SvnApp {
    /// From `self` to `after`: the differences of a path are being read, or a word says why not.
    pub open spec fn file_diff_begun(
        self,
        index: usize,
        rev: Seq<char>,
        address: Seq<char>,
        ignore: bool,
        is_file: bool,
        after: SvnApp,
        r: Option<Job>,
    ) -> bool {
        if !self.usable(is_file) {
            r is None && refused(self, "没有可用的 svn.exe，无法读取差异"@, after)
        } else if runs(self.pool.tasks@, Kind::FileDiff, index) {
            r is None && hinted(self, "上一条差异还在读取，读完再点「重新读取」"@, after)
        } else {
            &&& r matches Some(job) && job.dir == index && job.svn == self.svn && (
            job.act matches Act::FileDiff { revision, url, ignore_white } && revision@ == rev
                && url@ == address && ignore_white == ignore)
            &&& began(
                self,
                Kind::FileDiff,
                index,
                text::after_last(address, '/') + " r"@ + rev + " 差异"@,
                after,
            )
        }
    }

    /// Begins to read what one commit did to a path.
    pub fn spawn_file_diff(
        &mut self,
        index: usize,
        revision: String,
        url: String,
        ignore_white: bool,
        is_file: bool,
    ) -> (r: Option<Job>)
        ensures
            old(self).file_diff_begun(
                index,
                revision@,
                url@,
                ignore_white,
                is_file,
                *final(self),
                r,
            ),
    {
        let svn = match self.svn_or_none(is_file) {
            Some(svn) => svn,
            None => {
                self.hint("没有可用的 svn.exe，无法读取差异");
                return None;
            },
        };
        if self.pool.has(Kind::FileDiff, index) {
            self.hint("上一条差异还在读取，读完再点「重新读取」");
            return None;
        }
        let shown = text::behind_last(url.as_str(), '/');
        let mut task = text::join3(shown.as_str(), " r", revision.as_str());
        task.append(" 差异");
        self.enter(Kind::FileDiff, index, task);
        Some(Job { dir: index, svn, act: Act::FileDiff { revision, url, ignore_white } })
    }

    /// From `self` to `after`: the window with what `entry` did to `path` is open.
    pub open spec fn shows_diff_of(
        self,
        index: usize,
        entry: LogEntry,
        path: LogPath,
        after: SvnApp,
    ) -> bool {
        &&& after.hint@ == "正在读取 r"@ + entry.revision@ + " 对 "@ + path.path@ + " 的逐行改动 …"@
        &&& after.file_diff matches Some(d) && d.dir == index && d.revision@ == entry.revision@
            && d.author@ == entry.author@ && d.date@ == entry.date@ && d.message@ == entry.message@
            && d.path@ == path.path@ && d.action == path.action && d.url@ == url_of(
            self.root_at(index),
            path.path@,
        ) && d.diff@.len() == 0 && d.error@.len() == 0 && d.ignore_white
            == crate::windows::is_xml(path.path@) && d.zoom == (crate::windows::Zoom {
            maximized: true,
            rect: None,
            restore: None,
        })
        &&& after == (SvnApp { hint: after.hint, file_diff: after.file_diff, ..self })
    }

    /// Opens the window with what a commit did to a path. One is read at a time: the answer must
    /// not end up under another path.
    pub fn open_file_diff(&mut self, index: usize, entry: &LogEntry, path: &LogPath, is_file: bool)
        -> (r: Option<Job>)
        ensures
            if runs(old(self).pool.tasks@, Kind::FileDiff, index) {
                r is None && hinted(*old(self), "上一条差异还在读取，稍等再双击"@, *final(self))
            } else if text::strip_end(old(self).root_at(index), '/', '/').len() == 0 {
                r is None && hinted(
                    *old(self),
                    "还没读到该目录的仓库根地址，无法查看逐行改动"@,
                    *final(self),
                )
            } else {
                exists|open: SvnApp| #[trigger]
                    old(self).shows_diff_of(index, *entry, *path, open) && open.file_diff_begun(
                        index,
                        entry.revision@,
                        url_of(old(self).root_at(index), path.path@),
                        crate::windows::is_xml(path.path@),
                        is_file,
                        *final(self),
                        r,
                    )
            },
    {
        if self.pool.has(Kind::FileDiff, index) {
            self.hint("上一条差异还在读取，稍等再双击");
            return None;
        }
        let root = self.repository_root(index);
        let url = match file_url(root.as_str(), path.path.as_str()) {
            Some(url) => url,
            None => {
                self.hint("还没读到该目录的仓库根地址，无法查看逐行改动");
                return None;
            },
        };
        let mut t = text::join3("正在读取 r", entry.revision.as_str(), " 对 ");
        t.append(path.path.as_str());
        t.append(" 的逐行改动 …");
        self.hint = t;
        let window = FileDiff::open(index, entry, path, url.as_str());
        let ignore_white = window.ignore_white;
        self.file_diff = Some(window);
        let ghost open = *self;
        assert(old(self).shows_diff_of(index, *entry, *path, open));
        self.spawn_file_diff(index, entry.revision.clone(), url, ignore_white, is_file)
    }

    /// From `self` to `after`: the log of a path is being read, or a word says why not.
    pub open spec fn file_log_begun(
        self,
        index: usize,
        address: Seq<char>,
        count: i64,
        is_file: bool,
        after: SvnApp,
        r: Option<Job>,
    ) -> bool {
        if !self.usable(is_file) {
            r is None && refused(self, "没有可用的 svn.exe，无法读取文件提交记录"@, after)
        } else if runs(self.pool.tasks@, Kind::FileLog, index) {
            r is None && hinted(self, "上一个文件的提交记录还在读取，稍等再点"@, after)
        } else {
            &&& r matches Some(job) && job.dir == index && job.svn == self.svn && (
            job.act matches Act::FileLog { url, limit } && url@ == address && limit == count)
            &&& began(
                self,
                Kind::FileLog,
                index,
                text::after_last(address, '/') + " 提交记录"@,
                after,
            )
        }
    }

    /// Begins to read the log of a path.
    pub fn spawn_file_log(&mut self, index: usize, url: String, limit: i64, is_file: bool) -> (r:
        Option<Job>)
        ensures
            old(self).file_log_begun(index, url@, limit, is_file, *final(self), r),
    {
        let svn = match self.svn_or_none(is_file) {
            Some(svn) => svn,
            None => {
                self.hint("没有可用的 svn.exe，无法读取文件提交记录");
                return None;
            },
        };
        if self.pool.has(Kind::FileLog, index) {
            self.hint("上一个文件的提交记录还在读取，稍等再点");
            return None;
        }
        let shown = text::behind_last(url.as_str(), '/');
        self.enter(Kind::FileLog, index, text::join2(shown.as_str(), " 提交记录"));
        Some(Job { dir: index, svn, act: Act::FileLog { url, limit } })
    }

    /// From `self` to `after`: the window with the log of `path` is open.
    pub open spec fn shows_log_of(self, index: usize, path: LogPath, after: SvnApp) -> bool {
        &&& after.hint@ == "正在读取 "@ + path.path@ + " 的提交记录 …"@
        &&& after.file_log matches Some(l) && l.dir == index && l.url@ == url_of(
            self.root_at(index),
            path.path@,
        ) && l.name@ == path.path@ && l.limit == self.records_wanted() && l.entries@.len() == 0
            && l.error@.len() == 0 && l.zoom == (crate::windows::Zoom {
            maximized: false,
            rect: None,
            restore: None,
        })
        &&& after == (SvnApp { hint: after.hint, file_log: after.file_log, ..self })
    }

    /// Opens the window with the log of a path. One is read at a time.
    pub fn open_file_log(&mut self, index: usize, path: &LogPath, is_file: bool) -> (r: Option<Job>)
        ensures
            if runs(old(self).pool.tasks@, Kind::FileLog, index) {
                r is None && hinted(
                    *old(self),
                    "上一个文件的提交记录还在读取，稍等再点"@,
                    *final(self),
                )
            } else if text::strip_end(old(self).root_at(index), '/', '/').len() == 0 {
                r is None && hinted(
                    *old(self),
                    "还没读到该目录的仓库根地址，无法查询单个文件的提交记录"@,
                    *final(self),
                )
            } else {
                exists|open: SvnApp| #[trigger]
                    old(self).shows_log_of(index, *path, open) && open.file_log_begun(
                        index,
                        url_of(old(self).root_at(index), path.path@),
                        old(self).records_wanted() as i64,
                        is_file,
                        *final(self),
                        r,
                    )
            },
    {
        if self.pool.has(Kind::FileLog, index) {
            self.hint("上一个文件的提交记录还在读取，稍等再点");
            return None;
        }
        let root = self.repository_root(index);
        let url = match file_url(root.as_str(), path.path.as_str()) {
            Some(url) => url,
            None => {
                self.hint("还没读到该目录的仓库根地址，无法查询单个文件的提交记录");
                return None;
            },
        };
        let limit = self.records_limit();
        self.hint = text::join3("正在读取 ", path.path.as_str(), " 的提交记录 …");
        self.file_log = Some(FileLog::open(index, url.as_str(), path.path.as_str(), limit));
        let ghost open = *self;
        assert(old(self).shows_log_of(index, *path, open));
        self.spawn_file_log(index, url, limit, is_file)
    }
}

// ---------------------------------------------------------------- laws of the checks

/// A check begins exactly where there is a client, the directory is in the list and exists, and no
/// check of it runs. It then runs, and whatever ran before runs on. Where one runs already, one more
/// waits behind it, and never two; what waited before waits on, in its order.
pub proof fn law_checks_of_one_directory_do_not_meet(
    a: SvnApp,
    index: usize,
    quiet: bool,
    is_file: bool,
    is_dir: bool,
    b: SvnApp,
    r: Option<(Svn, Refresh)>,
)
    requires
        a.wf(),
        a.refresh_begun(index, quiet, is_file, is_dir, b, r),
    ensures
        ({
            let able = is_file && a.svn.exe@.len() > 0 && index < a.cfg.dirs@.len();
            let taken = exists|k: int|
                0 <= k < a.pool.tasks@.len() && (#[trigger] a.pool.tasks@[k]).kind == Kind::Refresh
                    && a.pool.tasks@[k].dir == index;
            &&& r is Some <==> able && !taken && is_dir
            &&& r matches Some(x) ==> x.1.dir == index && x.1.path@ == a.cfg.dirs@[index as int].path@
                && x.1.quiet == quiet && b.pool.tasks@.len() == a.pool.tasks@.len() + 1
                && b.pool.tasks@.last().kind == Kind::Refresh && b.pool.tasks@.last().dir == index
            &&& r is None ==> b.pool.tasks@ == a.pool.tasks@
            &&& a.pool.tasks@.len() <= b.pool.tasks@.len()
            &&& forall|k: int|
                0 <= k < a.pool.tasks@.len() ==> #[trigger] b.pool.tasks@[k] == a.pool.tasks@[k]
            &&& b.timing.pending_refresh@.take(a.timing.pending_refresh@.len() as int)
                == a.timing.pending_refresh@
            &&& able && taken ==> exists|k: int|
                0 <= k < b.timing.pending_refresh@.len() && (
                #[trigger] b.timing.pending_refresh@[k]).0 == index
            &&& !(able && taken) ==> b.timing.pending_refresh@ == a.timing.pending_refresh@
            &&& (forall|i: int, j: int|
                0 <= i < j < a.timing.pending_refresh@.len() ==> (
                #[trigger] a.timing.pending_refresh@[i]).0 != (
                #[trigger] a.timing.pending_refresh@[j]).0) ==> (forall|i: int, j: int|
                0 <= i < j < b.timing.pending_refresh@.len() ==> (
                #[trigger] b.timing.pending_refresh@[i]).0 != (
                #[trigger] b.timing.pending_refresh@[j]).0)
            &&& able && !taken && !is_dir ==> b.dirs@[index as int].remote == Some(false)
                && b.dirs@[index as int].info is None
            &&& !able ==> b.dirs == a.dirs && b.cfg == a.cfg
        }),
{
    let n = a.timing.pending_refresh@.len() as int;
    let able = is_file && a.svn.exe@.len() > 0 && index < a.cfg.dirs@.len();
    let taken = runs(a.pool.tasks@, Kind::Refresh, index);
    assert(b.timing.pending_refresh@.take(n) =~= a.timing.pending_refresh@);
    if r is Some {
        let t = b.pool.tasks@;
        assert forall|k: int| 0 <= k < a.pool.tasks@.len() implies #[trigger] t[k]
            == a.pool.tasks@[k] by {
            assert(t.drop_last()[k] == t[k]);
        }
    }
    if able && taken {
        if a.check_waits(index) {
            let k = choose|k: int|
                0 <= k < n && (#[trigger] a.timing.pending_refresh@[k]).0 == index;
            assert(b.timing.pending_refresh@[k].0 == index);
        } else {
            assert(b.timing.pending_refresh@[n].0 == index);
        }
    }
}

/// What runs, and the client, after the first `i` directories were taken.
proof fn lemma_refreshed(
    states: Seq<SvnApp>,
    tries: Seq<Option<(Svn, Refresh)>>,
    is_file: bool,
    are_dirs: Seq<bool>,
    n: int,
    i: int,
    d: usize,
)
    requires
        refreshed_in_turn(states, tries, is_file, are_dirs, n),
        n <= usize::MAX,
        0 <= i <= n,
        d >= i,
        states[0].usable(is_file),
        n == states[0].cfg.dirs@.len(),
        are_dirs.len() == n,
    ensures
        states[i].cfg == states[0].cfg,
        states[i].svn == states[0].svn,
        runs(states[i].pool.tasks@, Kind::Refresh, d) == runs(
            states[0].pool.tasks@,
            Kind::Refresh,
            d,
        ),
    decreases i,
{
    if i > 0 {
        lemma_refreshed(states, tries, is_file, are_dirs, n, i - 1, d);
        let a = states[i - 1];
        let b = states[i];
        let j = i - 1;
        assert(states[j].refresh_begun(
            j as usize,
            false,
            is_file,
            are_dirs[j],
            states[j + 1],
            tries[j],
        ));
        if tries[i - 1] is Some {
            let s = a.pool.tasks@;
            let t = b.pool.tasks@;
            if runs(s, Kind::Refresh, d) {
                let k = choose|k: int|
                    0 <= k < s.len() && (#[trigger] s[k]).kind == Kind::Refresh && s[k].dir == d;
                assert(t.drop_last()[k] == t[k]);
                assert(t[k].kind == Kind::Refresh);
            }
            if runs(t, Kind::Refresh, d) {
                let k = choose|k: int|
                    0 <= k < t.len() && (#[trigger] t[k]).kind == Kind::Refresh && t[k].dir == d;
                assert(k != t.len() - 1);
                assert(t.drop_last()[k] == t[k]);
                assert(s[k].kind == Kind::Refresh);
            }
        }
    }
}

proof fn lemma_begun_kept(tries: Seq<Option<(Svn, Refresh)>>, n: int)
    requires
        0 <= n <= tries.len(),
    ensures
        begun_among(tries, n) == tries.take(n).filter_map(|t: Option<(Svn, Refresh)>| t),
    decreases n,
{
    let keep = |t: Option<(Svn, Refresh)>| t;
    reveal(Seq::filter_map);
    if n > 0 {
        lemma_begun_kept(tries, n - 1);
        assert(tries.take(n).drop_last() =~= tries.take(n - 1));
        assert(tries.take(n).last() == tries[n - 1]);
    } else {
        assert(tries.take(0) =~= Seq::empty());
    }
}

/// Where all directories are checked, a check begins of exactly those that exist and are not being
/// checked already, each of its own path, in the order of the list.
pub proof fn law_every_directory_is_checked(
    states: Seq<SvnApp>,
    tries: Seq<Option<(Svn, Refresh)>>,
    is_file: bool,
    are_dirs: Seq<bool>,
    n: int,
)
    requires
        refreshed_in_turn(states, tries, is_file, are_dirs, n),
        n <= usize::MAX,
        states[0].usable(is_file),
        n == states[0].cfg.dirs@.len(),
        are_dirs.len() == n,
    ensures
        begun_among(tries, n) == tries.filter_map(|t: Option<(Svn, Refresh)>| t),
        forall|i: int|
            0 <= i < n ==> ((#[trigger] tries[i]) is Some <==> are_dirs[i] && !(exists|k: int|
                0 <= k < states[0].pool.tasks@.len() && (#[trigger] states[0].pool.tasks@[k]).kind
                    == Kind::Refresh && states[0].pool.tasks@[k].dir == i)),
        forall|i: int|
            0 <= i < n ==> ((#[trigger] tries[i]) matches Some(x) ==> x.1.dir == i && x.1.path@
                == states[0].cfg.dirs@[i].path@ && x.0 == states[0].svn && !x.1.quiet),
{
    lemma_begun_kept(tries, n);
    assert(tries.take(n) =~= tries);
    assert forall|i: int| 0 <= i < n implies ((#[trigger] tries[i]) is Some <==> are_dirs[i] && !(
    exists|k: int|
        0 <= k < states[0].pool.tasks@.len() && (#[trigger] states[0].pool.tasks@[k]).kind
            == Kind::Refresh && states[0].pool.tasks@[k].dir == i)) && (tries[i] matches Some(x)
        ==> x.1.dir == i && x.1.path@ == states[0].cfg.dirs@[i].path@ && x.0 == states[0].svn
        && !x.1.quiet) by {
        lemma_refreshed(states, tries, is_file, are_dirs, n, i, i as usize);
        assert(states[i].refresh_begun(
            i as usize,
            false,
            is_file,
            are_dirs[i],
            states[i + 1],
            tries[i],
        ));
    }
}

/// How many records are read is what is set, but never none and never more than two thousand.
pub proof fn law_records_read_are_limited(a: SvnApp)
    ensures
        1 <= a.records_wanted() <= 2000,
        1 <= a.cfg.log_limit <= 2000 ==> a.records_wanted() == a.cfg.log_limit,
        a.cfg.log_limit > 2000 ==> a.records_wanted() == 2000,
        a.cfg.log_limit < 1 ==> a.records_wanted() == 1,
{
}

/// The address whose account counts is that of the first directory of which one is known.
pub proof fn law_first_known_root_counts(dirs: Seq<DirView>, k: int)
    requires
        0 <= k <= dirs.len(),
        forall|i: int| 0 <= i < k ==> (#[trigger] dirs[i]).info is None,
    ensures
        k == dirs.len() ==> SvnApp::first_root(dirs, 0).len() == 0,
        k < dirs.len() ==> (dirs[k].info matches Some(info) ==> SvnApp::first_root(dirs, 0)
            == info.repos_root@),
{
    lemma_first_root(dirs, k, 0);
}

proof fn lemma_first_root(dirs: Seq<DirView>, k: int, i: int)
    requires
        0 <= i <= k <= dirs.len(),
        forall|j: int| 0 <= j < k ==> (#[trigger] dirs[j]).info is None,
    ensures
        SvnApp::first_root(dirs, i) == SvnApp::first_root(dirs, k),
    decreases k - i,
{
    if i < k {
        lemma_first_root(dirs, k, i + 1);
    }
}

/// A check of one directory changes nothing that is known of the others, and nothing in the list.
pub proof fn law_checks_leave_the_other_directories(
    a: SvnApp,
    index: usize,
    quiet: bool,
    is_file: bool,
    is_dir: bool,
    b: SvnApp,
    r: Option<(Svn, Refresh)>,
    i: int,
)
    requires
        a.wf(),
        a.refresh_begun(index, quiet, is_file, is_dir, b, r),
        0 <= i < a.dirs@.len(),
        i != index,
    ensures
        b.dirs@.len() == a.dirs@.len(),
        b.dirs@[i] == a.dirs@[i],
        b.cfg == a.cfg && b.svn == a.svn && b.login == a.login,
        b.commit == a.commit && b.history == a.history && b.stats == a.stats,
{
}

/// A window that opens on a path is about the commit and the path that were picked, at the address
/// below the root of the directory's repository, and is empty at first. Nothing else opens or
/// closes.
pub proof fn law_windows_are_about_what_was_picked(
    a: SvnApp,
    index: usize,
    entry: LogEntry,
    path: LogPath,
    b: SvnApp,
)
    ensures
        a.shows_diff_of(index, entry, path, b) ==> (b.file_diff matches Some(d) && d.dir == index
            && d.revision@ == entry.revision@ && d.author@ == entry.author@ && d.date@
            == entry.date@ && d.message@ == entry.message@ && d.path@ == path.path@ && d.action
            == path.action && text::ends(d.url@, path.path@) && d.diff@.len() == 0
            && d.error@.len() == 0) && b.file_log == a.file_log && b.pool == a.pool,
        a.shows_log_of(index, path, b) ==> (b.file_log matches Some(l) && l.dir == index && l.name@
            == path.path@ && text::ends(l.url@, path.path@) && 1 <= l.limit <= 2000
            && l.entries@.len() == 0 && l.error@.len() == 0) && b.file_diff == a.file_diff && b.pool
            == a.pool,
{
    let base = text::strip_end(a.root_at(index), '/', '/');
    text::law_texts_begin_and_end(base, path.path@);
    text::law_texts_begin_and_end(base + seq!['/'], path.path@);
}

/// The root of a repository is that of its own directory, and of no other.
pub proof fn law_roots_are_those_of_the_directory(a: SvnApp, index: usize)
    ensures
        index < a.dirs@.len() ==> (a.dirs@[index as int].info matches Some(i) ==> a.root_at(index)
            == i.repos_root@),
        index < a.dirs@.len() && a.dirs@[index as int].info is None ==> a.root_at(index).len() == 0,
        index >= a.dirs@.len() ==> a.root_at(index).len() == 0,
{
}

} // verus!

