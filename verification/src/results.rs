//! What becomes of the state once background tasks report back.

use vstd::prelude::*;
use crate::client::Svn;
use crate::commit::{diff_shown, shown_diff, stands_in, CommitPage};
use crate::config::Config;
use crate::date::Date;
use crate::history::HistoryPage;
use crate::jobs;
use crate::jobs::{Checked, Data, Inbox, Kind, UpdateManifest};
use crate::model::{out_views, DirView, Level, OutView, Page, Relocate};
use crate::state::{append_text, pushed, unquoted, Login, News, SvnApp, Timing, Wish, Worklog};
use crate::stats_page::StatsPage;
use crate::svn::{
    blocked_among, blocked_count, status_views, uploads_among, uploads_of, LogEntry, StatusEntry,
};
use crate::text;
use crate::windows::{FileDiff, FileLog};

verus! {

// ---------------------------------------------------------------- lines

/// How a line that a task sent is meant.
pub open spec fn level_of(line: Seq<char>) -> Level {
    if text::begins(line, "$"@) || text::begins(line, "→"@) {
        Level::Command
    } else if text::occurs(line, "失败"@) || text::occurs(line, "Error"@) || text::occurs(
        line,
        "svn: E"@,
    ) {
        Level::Error
    } else if text::occurs(line, "Warning"@) || text::occurs(line, "警告"@) || text::occurs(
        line,
        "冲突"@,
    ) {
        Level::Warning
    } else if text::occurs(line, "完成"@) || text::begins(line, "A"@) || text::begins(line, "D"@) {
        Level::Success
    } else {
        Level::Info
    }
}

/// How a line that a task sent is meant.
pub fn line_level(line: &str) -> (r: Level)
    ensures
        r == level_of(line@),
{
    if text::has_prefix(line, "$") || text::has_prefix(line, "→") {
        Level::Command
    } else if text::contains(line, "失败") || text::contains(line, "Error") || text::contains(
        line,
        "svn: E",
    ) {
        Level::Error
    } else if text::contains(line, "Warning") || text::contains(line, "警告") || text::contains(
        line,
        "冲突",
    ) {
        Level::Warning
    } else if text::contains(line, "完成") || text::has_prefix(line, "A") || text::has_prefix(
        line,
        "D",
    ) {
        Level::Success
    } else {
        Level::Info
    }
}

/// The output behind the first `n` lines that tasks sent.
pub open spec fn with_lines(out: Seq<OutView>, lines: Seq<Seq<char>>, n: int) -> Seq<OutView>
    decreases n,
{
    if n <= 0 {
        out
    } else {
        pushed(with_lines(out, lines, n - 1), level_of(lines[n - 1]), lines[n - 1])
    }
}

/// What is said in the output of a task that is gone without a result.
pub open spec fn lost_text(kind: Kind, dir: usize, label: Seq<char>) -> Seq<char> {
    "任务「"@ + label + "」异常结束（"@ + kind.title() + "，目录 #"@ + text::decimal(dir as int) + "）"@
}

/// What the status line says of a task that is gone without a result.
pub open spec fn lost_hint(label: Seq<char>) -> Seq<char> {
    "「"@ + label + "」异常结束，没有取到结果，请重试"@
}

/// The output behind the first `n` tasks that are gone without a result.
pub open spec fn with_lost(
    out: Seq<OutView>,
    lost: Seq<(Kind, usize, String)>,
    n: int,
) -> Seq<OutView>
    decreases n,
{
    if n <= 0 {
        out
    } else {
        pushed(
            with_lost(out, lost, n - 1),
            Level::Error,
            lost_text(lost[n - 1].0, lost[n - 1].1, lost[n - 1].2@),
        )
    }
}

fn lost_line(kind: Kind, dir: usize, label: &str) -> (r: String)
    ensures
        r@ == lost_text(kind, dir, label@),
{
    let n = text::count(dir);
    let mut t = text::join3("任务「", label, "」异常结束（");
    t.append(kind.name());
    t.append("，目录 #");
    t.append(n.as_str());
    t.append("）");
    t
}

impl SvnApp {
    fn take_lost(&mut self, lost: &Vec<(Kind, usize, String)>)
        ensures
            out_views(final(self).output@) == with_lost(
                out_views(old(self).output@),
                lost@,
                lost@.len() as int,
            ),
            final(self).hint@ == (if lost@.len() > 0 {
                lost_hint(lost@.last().2@)
            } else {
                old(self).hint@
            }),
            lost@.len() == 0 ==> final(self).hint == old(self).hint,
            *final(self) == (SvnApp {
                output: final(self).output,
                hint: final(self).hint,
                ..*old(self)
            }),
    {
        let ghost first = *self;
        let mut i: usize = 0;
        while i < lost.len()
            invariant
                i <= lost.len(),
                out_views(self.output@) == with_lost(out_views(first.output@), lost@, i as int),
                self.hint@ == (if i > 0 {
                    lost_hint(lost@[i - 1].2@)
                } else {
                    first.hint@
                }),
                i == 0 ==> self.hint == first.hint,
                *self == (SvnApp { output: self.output, hint: self.hint, ..first }),
            decreases lost.len() - i,
        {
            let t = lost_line(lost[i].0, lost[i].1, lost[i].2.as_str());
            append_text(&mut self.output, Level::Error, t.as_str());
            self.hint = text::join3("「", lost[i].2.as_str(), "」异常结束，没有取到结果，请重试");
            i += 1;
        }
    }

    fn take_lines(&mut self, lines: &Vec<String>)
        ensures
            out_views(final(self).output@) == with_lines(
                out_views(old(self).output@),
                text::views(lines@),
                lines@.len() as int,
            ),
            *final(self) == (SvnApp { output: final(self).output, ..*old(self) }),
    {
        let ghost first = *self;
        let ghost lv = text::views(lines@);
        let mut i: usize = 0;
        while i < lines.len()
            invariant
                i <= lines.len(),
                lv == text::views(lines@),
                out_views(self.output@) == with_lines(out_views(first.output@), lv, i as int),
                *self == (SvnApp { output: self.output, ..first }),
            decreases lines.len() - i,
        {
            assert(lv[i as int] == lines@[i as int]@);
            let level = line_level(lines[i].as_str());
            append_text(&mut self.output, level, lines[i].as_str());
            i += 1;
        }
    }
}

// ---------------------------------------------------------------- the client

/// The output of a state.
pub open spec fn said(a: SvnApp) -> Seq<OutView> {
    out_views(a.output@)
}

/// How the outcome of a command is meant.
pub open spec fn verdict(ok: bool) -> Level {
    if ok {
        Level::Success
    } else {
        Level::Error
    }
}

/// From `a` to `b`: the search for the client is over.
pub open spec fn took_client(
    a: SvnApp,
    exe: Seq<char>,
    version: Seq<char>,
    candidates: Vec<String>,
    b: SvnApp,
    wishes: Seq<Wish>,
) -> bool {
    if exe.len() == 0 {
        &&& wishes.len() == 0
        &&& b.hint@ == "未能自动找到 svn.exe，请在「设置」中手动指定路径"@
        &&& said(b) == pushed(
            said(a),
            Level::Error,
            "未找到 svn.exe：请安装命令行版 Subversion（svn.exe），或在设置里手动指定"@,
        )
        &&& b == (SvnApp {
            login: Login { probing: false, candidates, refresh_after_detect: false, ..a.login },
            output: b.output,
            hint: b.hint,
            show_settings: true,
            ..a
        })
    } else {
        &&& wishes == (if a.login.refresh_after_detect {
            seq![Wish::Version, Wish::Save { told: false }, Wish::RefreshAll]
        } else {
            seq![Wish::Version, Wish::Save { told: false }]
        })
        &&& b.hint@ == "已自动连接 svn.exe（版本 "@ + version + "）"@
        &&& said(b) == pushed(
            said(a),
            Level::Success,
            "已找到 svn.exe："@ + exe + "（版本 "@ + version + "）"@,
        )
        &&& b.cfg.svn_exe@ == unquoted(exe)
        &&& b.svn.exe@ == unquoted(exe)
        &&& b.login.svn_user@.len() == 0
        &&& b == (SvnApp {
            cfg: Config { svn_exe: b.cfg.svn_exe, ..a.cfg },
            svn: Svn { exe: b.svn.exe, ..a.svn },
            login: Login {
                probing: false,
                candidates,
                refresh_after_detect: false,
                svn_user: b.login.svn_user,
                user_probed: false,
                ..a.login
            },
            output: b.output,
            hint: b.hint,
            ..a
        })
    }
}

impl SvnApp {
    /// The search for the client is over.
    pub fn take_client(&mut self, exe: &str, version: &str, candidates: Vec<String>) -> (r: Vec<
        Wish,
    >)
        ensures
            took_client(*old(self), exe@, version@, candidates, *final(self), r@),
    {
        self.login.probing = false;
        self.login.candidates = candidates;
        let again = self.login.refresh_after_detect;
        self.login.refresh_after_detect = false;
        if exe.is_empty() {
            self.hint("未能自动找到 svn.exe，请在「设置」中手动指定路径");
            self.push(
                Level::Error,
                "未找到 svn.exe：请安装命令行版 Subversion（svn.exe），或在设置里手动指定",
            );
            self.show_settings = true;
            Vec::new()
        } else {
            let mut t = text::join3("已找到 svn.exe：", exe, "（版本 ");
            t.append(version);
            t.append("）");
            self.push(Level::Success, t.as_str());
            let _ = self.apply_svn_exe(exe);
            let mut wishes: Vec<Wish> = Vec::new();
            wishes.push(Wish::Version);
            wishes.push(Wish::Save { told: false });
            self.hint = text::join3("已自动连接 svn.exe（版本 ", version, "）");
            assert(wishes@ =~= seq![Wish::Version, Wish::Save { told: false }]);
            if again {
                wishes.push(Wish::RefreshAll);
                assert(wishes@ =~= seq![Wish::Version, Wish::Save { told: false }, Wish::RefreshAll]);
            }
            wishes
        }
    }
}

// ---------------------------------------------------------------- who is logged in

/// The history page, once it is known who is logged in. It shows the own commits now, if it had to
/// do without and the settings, or the page, ask for them.
pub open spec fn told_user(h: Option<HistoryPage>, only_mine: bool, user: String) -> Option<
    HistoryPage,
> {
    match h {
        Some(h) => if h.author@.len() == 0 {
            Some(HistoryPage { author: user, mine: h.mine || only_mine, ..h })
        } else {
            Some(h)
        },
        None => None,
    }
}

/// The statistics wait for somebody to be logged in.
pub open spec fn stats_wait(a: SvnApp) -> bool {
    a.page == Page::Stats && (a.stats matches Some(s) && s.expected@.len() == 0)
}

/// From `a` to `b`: it is known who is logged in.
pub open spec fn took_user(a: SvnApp, user: String, b: SvnApp, wishes: Seq<Wish>) -> bool {
    &&& b.login.svn_user@ == user@
    &&& said(b) == pushed(said(a), Level::Info, "本机 svn 登录人："@ + user@)
    &&& b == (SvnApp {
        login: Login { svn_user: b.login.svn_user, ..a.login },
        output: b.output,
        history: told_user(a.history, a.cfg.history_only_mine, user),
        ..a
    })
    &&& wishes == (match a.history {
        Some(h) => if h.author@.len() == 0 && (h.mine || a.cfg.history_only_mine) {
            seq![Wish::Log { dir: h.dir, mine: true, unlimited: h.unlimited, range: h.range }]
        } else {
            Seq::empty()
        },
        None => Seq::empty(),
    }) + (if stats_wait(a) {
        seq![Wish::Stats]
    } else {
        Seq::empty()
    })
}

impl SvnApp {
    /// Whether the statistics have to be read now that somebody is logged in.
    pub fn stats_after_user_probe(&self) -> (r: bool)
        ensures
            r == stats_wait(*self),
    {
        match self.page {
            Page::Stats => match &self.stats {
                Some(s) => s.expected.len() == 0,
                None => false,
            },
            _ => false,
        }
    }

    /// It is known who is logged in. The pages that had to do without read again.
    pub fn take_user(&mut self, user: String) -> (r: Vec<Wish>)
        ensures
            took_user(*old(self), user, *final(self), r@),
    {
        let mut wishes: Vec<Wish> = Vec::new();
        let stats = self.stats_after_user_probe();
        let t = text::join2("本机 svn 登录人：", user.as_str());
        self.login.svn_user = user.clone();
        self.push(Level::Info, t.as_str());
        self.history = match self.history.take() {
            Some(mut h) => {
                if h.author.as_str().is_empty() {
                    h.author = user;
                    h.mine = h.mine || self.cfg.history_only_mine;
                    if h.mine {
                        let (dir, unlimited, range) = (h.dir, h.unlimited, h.range);
                        wishes.push(Wish::Log { dir, mine: true, unlimited, range });
                    }
                }
                Some(h)
            },
            None => None,
        };
        let ghost first = wishes@;
        if stats {
            wishes.push(Wish::Stats);
            assert(wishes@ =~= first + seq![Wish::Stats]);
        } else {
            assert(wishes@ =~= first + Seq::<Wish>::empty());
        }
        wishes
    }
}

// ---------------------------------------------------------------- newer versions

/// The output with a text behind it, unless the text is left out.
pub open spec fn pushed_unless(
    quiet: bool,
    out: Seq<OutView>,
    level: Level,
    s: Seq<char>,
) -> Seq<OutView> {
    if quiet {
        out
    } else {
        pushed(out, level, s)
    }
}

/// From `a` to `b`: the source of updates was asked. `current` is the version that runs. A `quiet`
/// check without news leaves the output alone.
pub open spec fn took_check(
    a: SvnApp,
    ok: bool,
    message: Seq<char>,
    info: Option<UpdateManifest>,
    ready: bool,
    quiet: bool,
    current: Seq<char>,
    b: SvnApp,
) -> bool {
    if !ok {
        &&& said(b) == pushed_unless(
            quiet,
            said(a),
            Level::Warning,
            "检查更新失败："@ + message,
        )
        &&& b == (SvnApp { output: b.output, ..a })
    } else {
        match info {
            None => {
                &&& said(b) == pushed_unless(
                    quiet,
                    said(a),
                    Level::Warning,
                    "更新源没有返回版本信息"@,
                )
                &&& b == (SvnApp { output: b.output, ..a })
            },
            Some(m) => {
                let latest = text::trim(m.version@);
                let notes = text::trim(m.notes@);
                let news = News { update_info: info, update_ready: ready, ..a.news };
                if ready {
                    let first = pushed(
                        said(a),
                        Level::Warning,
                        "发现新版本 V"@ + latest + "（当前 V"@ + current + "）"@,
                    );
                    &&& said(b) == (if notes.len() > 0 {
                        pushed(first, Level::Info, "更新说明：\n"@ + notes)
                    } else {
                        first
                    })
                    &&& b.hint@ == "有新版本 V"@ + latest + "，点击顶部「↑ 新版本」按钮即可更新"@
                    &&& b == (SvnApp { output: b.output, hint: b.hint, news, ..a })
                } else {
                    &&& said(b) == pushed_unless(
                        quiet,
                        said(a),
                        Level::Success,
                        "已是最新版本（V"@ + current + "）"@,
                    )
                    &&& b == (SvnApp { output: b.output, news, ..a })
                }
            },
        }
    }
}

impl SvnApp {
    fn push_unless(&mut self, quiet: bool, level: Level, t: &str)
        ensures
            said(*final(self)) == pushed_unless(quiet, said(*old(self)), level, t@),
            *final(self) == (SvnApp { output: final(self).output, ..*old(self) }),
    {
        if !quiet {
            self.push(level, t);
        }
    }

    fn announce(&mut self, latest: &str, notes: &str, current: &str)
        ensures
            ({
                let first = pushed(
                    said(*old(self)),
                    Level::Warning,
                    "发现新版本 V"@ + latest@ + "（当前 V"@ + current@ + "）"@,
                );
                said(*final(self)) == (if notes@.len() > 0 {
                    pushed(first, Level::Info, "更新说明：\n"@ + notes@)
                } else {
                    first
                })
            }),
            final(self).hint@ == "有新版本 V"@ + latest@ + "，点击顶部「↑ 新版本」按钮即可更新"@,
            *final(self) == (SvnApp {
                output: final(self).output,
                hint: final(self).hint,
                ..*old(self)
            }),
    {
        let mut t = text::join3("发现新版本 V", latest, "（当前 V");
        t.append(current);
        t.append("）");
        self.push(Level::Warning, t.as_str());
        if !notes.is_empty() {
            let n = text::join2("更新说明：\n", notes);
            self.push(Level::Info, n.as_str());
        }
        self.hint = text::join3("有新版本 V", latest, "，点击顶部「↑ 新版本」按钮即可更新");
    }

    /// The source of updates was asked. `current` is the version that runs. A `quiet` check without
    /// news leaves the output alone.
    pub fn take_check(
        &mut self,
        ok: bool,
        message: &str,
        info: Option<UpdateManifest>,
        ready: bool,
        quiet: bool,
        current: &str,
    )
        ensures
            took_check(*old(self), ok, message@, info, ready, quiet, current@, *final(self)),
    {
        if !ok {
            let t = text::join2("检查更新失败：", message);
            self.push_unless(quiet, Level::Warning, t.as_str());
            return;
        }
        match info {
            None => self.push_unless(quiet, Level::Warning, "更新源没有返回版本信息"),
            Some(m) => {
                let latest = text::trimmed(m.version.as_str());
                let notes = text::trimmed(m.notes.as_str());
                self.news.update_info = Some(m);
                self.news.update_ready = ready;
                if ready {
                    self.announce(latest.as_str(), notes.as_str(), current);
                } else {
                    let t = text::join3("已是最新版本（V", current, "）");
                    self.push_unless(quiet, Level::Success, t.as_str());
                }
            },
        }
    }
}

/// However often a quiet check is made, it writes nothing while there is nothing new.
pub proof fn law_quiet_checks_without_news_write_nothing(
    a: SvnApp,
    ok: bool,
    message: Seq<char>,
    info: Option<UpdateManifest>,
    ready: bool,
    current: Seq<char>,
    b: SvnApp,
)
    requires
        !ok || info is None || !ready,
        took_check(a, ok, message, info, ready, true, current, b),
    ensures
        said(b) == said(a),
        b.hint == a.hint,
{
}

/// From `a` to `b`: the download of a new version is over.
pub open spec fn took_download(
    a: SvnApp,
    ok: bool,
    message: Seq<char>,
    b: SvnApp,
    wishes: Seq<Wish>,
) -> bool {
    if ok {
        wishes == seq![Wish::ApplyUpdate] && b == a
    } else {
        &&& wishes.len() == 0
        &&& b.news.update_error matches Some(e) && e@ == message
        &&& b.hint@ == "下载新版本失败："@ + message
        &&& said(b) == pushed(said(a), Level::Error, "下载新版本失败："@ + message)
        &&& b == (SvnApp {
            output: b.output,
            hint: b.hint,
            news: News { update_error: b.news.update_error, ..a.news },
            ..a
        })
    }
}

/// From `a` to `b`: a work log was written.
pub open spec fn took_worklog(
    a: SvnApp,
    ok: bool,
    content: Seq<char>,
    message: Seq<char>,
    b: SvnApp,
) -> bool {
    if ok {
        &&& b.worklog.ai_result@ == content
        &&& b.worklog.ai_error@.len() == 0
        &&& b.hint@ == "AI 日志已生成"@
        &&& said(b) == pushed(
            said(a),
            Level::Success,
            "AI 日志已生成（"@ + text::decimal(content.len() as int)
                + " 字），可在「AI 工作日志」窗口查看与复制"@,
        )
        &&& b == (SvnApp {
            output: b.output,
            hint: b.hint,
            worklog: Worklog {
                ai_result: b.worklog.ai_result,
                ai_error: b.worklog.ai_error,
                ..a.worklog
            },
            ..a
        })
    } else {
        &&& b.worklog.ai_error@ == message
        &&& said(b) == pushed(said(a), Level::Error, "AI 生成日志失败："@ + message)
        &&& b == (SvnApp {
            output: b.output,
            worklog: Worklog { ai_error: b.worklog.ai_error, ..a.worklog },
            ..a
        })
    }
}

impl SvnApp {
    /// The download of a new version is over.
    pub fn take_download(&mut self, ok: bool, message: &str) -> (r: Vec<Wish>)
        ensures
            took_download(*old(self), ok, message@, *final(self), r@),
    {
        let mut wishes: Vec<Wish> = Vec::new();
        if ok {
            wishes.push(Wish::ApplyUpdate);
            assert(wishes@ =~= seq![Wish::ApplyUpdate]);
        } else {
            let t = text::join2("下载新版本失败：", message);
            self.news.update_error = Some(message.to_owned());
            self.push(Level::Error, t.as_str());
            self.hint = t;
        }
        wishes
    }

    /// A work log was written.
    pub fn take_worklog(&mut self, ok: bool, content: &str, message: &str)
        ensures
            took_worklog(*old(self), ok, content@, message@, *final(self)),
    {
        if ok {
            let chars = text::chars_of(content);
            let n = text::count(chars.len());
            let t = text::join3(
                "AI 日志已生成（",
                n.as_str(),
                " 字），可在「AI 工作日志」窗口查看与复制",
            );
            self.worklog.ai_result = content.to_owned();
            self.worklog.ai_error = String::new();
            self.push(Level::Success, t.as_str());
            self.hint("AI 日志已生成");
        } else {
            let t = text::join2("AI 生成日志失败：", message);
            self.worklog.ai_error = message.to_owned();
            self.push(Level::Error, t.as_str());
        }
    }
}

// ---------------------------------------------------------------- the state of a directory

/// What is known of a directory after a check at the time `clock`.
pub open spec fn checked_view(v: DirView, found: Checked, clock: Seq<char>) -> bool {
    &&& v.checked_at@ == clock
    &&& v == (DirView {
        info: found.info,
        remote: found.remote,
        remote_msg: found.remote_msg,
        remote_rev: found.remote_rev,
        last_rev: found.last_rev,
        last_author: found.last_author,
        last_date: found.last_date,
        changed: found.changed,
        changes: found.changes,
        out_of_date: found.out_of_date,
        conflicts: found.conflicts,
        checked_at: v.checked_at,
    })
}

/// The first of the waiting checks of `dir` among those from `i` on, and whether it is to be quiet.
pub open spec fn waiting_check(list: Seq<(usize, bool)>, dir: usize, i: int) -> Option<bool>
    decreases list.len() - i,
{
    if i >= list.len() {
        None
    } else if list[i].0 == dir {
        Some(list[i].1)
    } else {
        waiting_check(list, dir, i + 1)
    }
}

/// The first `n` waiting checks without those of `dir`.
pub open spec fn other_checks(list: Seq<(usize, bool)>, dir: usize, n: int) -> Seq<(usize, bool)>
    decreases n,
{
    if n <= 0 {
        Seq::empty()
    } else if list[n - 1].0 == dir {
        other_checks(list, dir, n - 1)
    } else {
        other_checks(list, dir, n - 1).push(list[n - 1])
    }
}

fn find_waiting(list: &Vec<(usize, bool)>, dir: usize) -> (r: Option<bool>)
    ensures
        r == waiting_check(list@, dir, 0),
{
    let mut i: usize = 0;
    while i < list.len()
        invariant
            i <= list.len(),
            waiting_check(list@, dir, 0) == waiting_check(list@, dir, i as int),
        decreases list.len() - i,
    {
        if list[i].0 == dir {
            return Some(list[i].1);
        }
        i += 1;
    }
    None
}

fn drop_waiting(list: &Vec<(usize, bool)>, dir: usize) -> (r: Vec<(usize, bool)>)
    ensures
        r@ == other_checks(list@, dir, list@.len() as int),
{
    let mut r: Vec<(usize, bool)> = Vec::new();
    let mut i: usize = 0;
    while i < list.len()
        invariant
            i <= list.len(),
            r@ == other_checks(list@, dir, i as int),
        decreases list.len() - i,
    {
        if list[i].0 != dir {
            r.push((list[i].0, list[i].1));
        }
        i += 1;
    }
    r
}

/// From `a` to `b`: a directory was checked. A check that had to wait for this one follows.
pub open spec fn took_checked(
    a: SvnApp,
    dir: usize,
    found: Checked,
    clock: Seq<char>,
    b: SvnApp,
    wishes: Seq<Wish>,
) -> bool {
    let list = a.timing.pending_refresh@;
    &&& b.dirs@.len() == a.dirs@.len()
    &&& forall|i: int|
        0 <= i < a.dirs@.len() && i != dir ==> #[trigger] b.dirs@[i] == a.dirs@[i]
    &&& dir < a.dirs@.len() ==> checked_view(b.dirs@[dir as int], found, clock)
    &&& match waiting_check(list, dir, 0) {
        Some(quiet) => {
            &&& wishes == seq![Wish::Refresh { dir, quiet }]
            &&& b.timing.pending_refresh@ == other_checks(list, dir, list.len() as int)
        },
        None => wishes.len() == 0 && b.timing == a.timing,
    }
    &&& b == (SvnApp {
        dirs: b.dirs,
        timing: Timing { pending_refresh: b.timing.pending_refresh, ..a.timing },
        ..a
    })
}

impl SvnApp {
    /// A directory was checked. A check that had to wait for this one follows.
    pub fn take_checked(&mut self, dir: usize, found: Checked, clock: &str) -> (r: Vec<Wish>)
        ensures
            took_checked(*old(self), dir, found, clock@, *final(self), r@),
    {
        let mut wishes: Vec<Wish> = Vec::new();
        if dir < self.dirs.len() {
            let view = DirView {
                info: found.info,
                remote: found.remote,
                remote_msg: found.remote_msg,
                remote_rev: found.remote_rev,
                last_rev: found.last_rev,
                last_author: found.last_author,
                last_date: found.last_date,
                changed: found.changed,
                changes: found.changes,
                out_of_date: found.out_of_date,
                conflicts: found.conflicts,
                checked_at: clock.to_owned(),
            };
            self.dirs.set(dir, view);
        }
        if let Some(quiet) = find_waiting(&self.timing.pending_refresh, dir) {
            self.timing.pending_refresh = drop_waiting(&self.timing.pending_refresh, dir);
            wishes.push(Wish::Refresh { dir, quiet });
            assert(wishes@ =~= seq![Wish::Refresh { dir, quiet }]);
        }
        wishes
    }
}

/// What is known of a directory after its changes were read.
pub open spec fn counted_view(before: DirView, entries: Seq<StatusEntry>, ok: bool, v: DirView) -> bool {
    let sv = status_views(entries);
    let n = sv.len() as int;
    &&& if ok {
        &&& status_views(v.changes@) == uploads_among(sv, n)
        &&& v.changed == Some(uploads_among(sv, n).len() as usize)
        &&& uploads_among(sv, n).len() <= usize::MAX
        &&& v.conflicts == Some(blocked_among(sv) as usize)
        &&& blocked_among(sv) <= usize::MAX
    } else {
        &&& v.changes@.len() == 0
        &&& v.changed is None
        &&& v.conflicts is None
    }
    &&& v == (DirView {
        changed: v.changed,
        changes: v.changes,
        conflicts: v.conflicts,
        ..before
    })
}

/// The commit page after the changes of `dir` were read.
pub open spec fn listed_page(
    before: Option<CommitPage>,
    dir: usize,
    entries: Vec<StatusEntry>,
    ok: bool,
    message: Seq<char>,
    after: Option<CommitPage>,
) -> bool {
    match before {
        None => after is None,
        Some(c) => if c.dir != dir {
            after == before
        } else {
            after matches Some(d) && if ok {
                &&& d.diff@.len() == 0
                &&& d.error@.len() == 0
                &&& d == (CommitPage {
                    entries,
                    picked: usize::MAX,
                    diff: d.diff,
                    error: d.error,
                    confirm_outdated: false,
                    ..c
                })
            } else {
                d.error@ == message && d == (CommitPage { error: d.error, ..c })
            }
        },
    }
}

/// From `a` to `b`: the changes of a directory were read.
pub open spec fn took_status(
    a: SvnApp,
    dir: usize,
    entries: Vec<StatusEntry>,
    ok: bool,
    message: Seq<char>,
    b: SvnApp,
) -> bool {
    &&& b.dirs@.len() == a.dirs@.len()
    &&& forall|i: int|
        0 <= i < a.dirs@.len() && i != dir ==> #[trigger] b.dirs@[i] == a.dirs@[i]
    &&& dir < a.dirs@.len() ==> counted_view(
        a.dirs@[dir as int],
        entries@,
        ok,
        b.dirs@[dir as int],
    )
    &&& listed_page(a.commit, dir, entries, ok, message, b.commit)
    &&& said(b) == (if ok {
        said(a)
    } else {
        pushed(said(a), Level::Error, "读取修改状态失败："@ + message)
    })
    &&& b == (SvnApp { dirs: b.dirs, commit: b.commit, output: b.output, ..a })
}

fn count_view(v: &mut DirView, entries: &Vec<StatusEntry>, ok: bool)
    ensures
        counted_view(*old(v), entries@, ok, *final(v)),
{
    if ok {
        let changes = uploads_of(entries);
        let n = changes.len();
        assert(status_views(changes@).len() == n);
        v.conflicts = Some(blocked_count(entries.as_slice()));
        v.changes = changes;
        v.changed = Some(n);
    } else {
        v.conflicts = None;
        v.changed = None;
        v.changes = Vec::new();
    }
}

impl SvnApp {
    fn list_entries(&mut self, dir: usize, entries: Vec<StatusEntry>, ok: bool, message: &str)
        ensures
            listed_page(old(self).commit, dir, entries, ok, message@, final(self).commit),
            *final(self) == (SvnApp { commit: final(self).commit, ..*old(self) }),
    {
        self.commit = match self.commit.take() {
            Some(mut c) => {
                if c.dir == dir {
                    if ok {
                        c.set_entries(entries);
                    } else {
                        c.error = message.to_owned();
                    }
                }
                Some(c)
            },
            None => None,
        };
    }

    /// The changes of a directory were read.
    pub fn take_status(&mut self, dir: usize, entries: Vec<StatusEntry>, ok: bool, message: &str)
        ensures
            took_status(*old(self), dir, entries, ok, message@, *final(self)),
    {
        if dir < self.dirs.len() {
            count_view(&mut self.dirs[dir], &entries, ok);
        }
        self.list_entries(dir, entries, ok, message);
        if !ok {
            let t = text::join2("读取修改状态失败：", message);
            self.push(Level::Error, t.as_str());
        }
    }
}

// ---------------------------------------------------------------- records

/// From `a` to `b`: the records of a directory were read.
pub open spec fn took_log(
    a: SvnApp,
    dir: usize,
    entries: Vec<LogEntry>,
    ok: bool,
    message: Seq<char>,
    b: SvnApp,
) -> bool {
    &&& match a.history {
        None => b.history is None,
        Some(h) => if h.dir != dir {
            b.history == a.history
        } else if ok {
            b.history == Some(HistoryPage { entries, ..h })
        } else {
            b.history matches Some(g) && g.error@ == message && g == (HistoryPage {
                error: g.error,
                ..h
            })
        },
    }
    &&& said(b) == (if ok {
        said(a)
    } else {
        pushed(said(a), Level::Error, "读取提交记录失败："@ + message)
    })
    &&& b == (SvnApp { history: b.history, output: b.output, ..a })
}

/// Another answer can be counted.
pub open spec fn has_room(page: StatsPage) -> bool {
    page.done@.len() + page.failed@.len() < usize::MAX
}

/// From `a` to `b`: one directory has answered the query of the statistics.
pub open spec fn took_stats(
    a: SvnApp,
    dir: usize,
    epoch: u64,
    entries: Vec<LogEntry>,
    ok: bool,
    message: String,
    today: Date,
    b: SvnApp,
) -> bool {
    &&& match a.stats {
        None => b.stats is None && b.hint == a.hint,
        Some(p) => if has_room(p) {
            &&& b.stats matches Some(q)
            &&& p.answered(dir, epoch, entries, ok, message, today, q)
            &&& if epoch == p.epoch && StatsPage::finished(q.view) is Some {
                b.hint@ == StatsPage::finished(q.view)->0
            } else {
                b.hint == a.hint
            }
        } else {
            b.stats == a.stats && b.hint == a.hint
        },
    }
    &&& said(b) == (if ok {
        said(a)
    } else {
        pushed(said(a), Level::Error, "读取提交统计失败："@ + message@)
    })
    &&& b == (SvnApp { stats: b.stats, hint: b.hint, output: b.output, ..a })
}

impl SvnApp {
    /// The records of a directory were read.
    pub fn take_log(&mut self, dir: usize, entries: Vec<LogEntry>, ok: bool, message: &str)
        ensures
            took_log(*old(self), dir, entries, ok, message@, *final(self)),
            old(self).wf() ==> final(self).wf(),
    {
        self.history = match self.history.take() {
            Some(mut h) => {
                if h.dir == dir {
                    if ok {
                        h.entries = entries;
                    } else {
                        h.error = message.to_owned();
                    }
                }
                Some(h)
            },
            None => None,
        };
        if !ok {
            let t = text::join2("读取提交记录失败：", message);
            self.push(Level::Error, t.as_str());
        }
    }

    /// One directory has answered the query of the statistics; answers to another query are
    /// dropped.
    pub fn apply_stats(
        &mut self,
        dir: usize,
        epoch: u64,
        entries: Vec<LogEntry>,
        ok: bool,
        message: String,
        today: Date,
    )
        requires
            today.wf(),
            old(self).wf(),
        ensures
            took_stats(*old(self), dir, epoch, entries, ok, message, today, *final(self)),
            final(self).wf(),
    {
        let complaint = text::join2("读取提交统计失败：", message.as_str());
        self.stats = match self.stats.take() {
            Some(mut page) => {
                if page.done.len() < usize::MAX - page.failed.len() {
                    if let Some(t) = page.apply(dir, epoch, entries, ok, message, today) {
                        self.hint = t;
                    }
                }
                Some(page)
            },
            None => None,
        };
        if !ok {
            self.push(Level::Error, complaint.as_str());
        }
    }
}

// ---------------------------------------------------------------- commands that ran

/// From `a` to `b`: the outcome of a command is told.
pub open spec fn reported(a: SvnApp, ok: bool, message: Seq<char>, b: SvnApp) -> bool {
    &&& b.hint@ == message
    &&& said(b) == pushed(said(a), verdict(ok), message)
}

/// The commit page is about `dir`.
pub open spec fn commits_in(a: SvnApp, dir: usize) -> bool {
    a.commit matches Some(c) && c.dir == dir
}

/// The commit page after a commit: what was committed is no longer in the list.
pub open spec fn committed_page(
    before: Option<CommitPage>,
    ok: bool,
    after: Option<CommitPage>,
) -> bool {
    match before {
        None => after is None,
        Some(c) => after matches Some(d) && if ok {
            &&& d.entries@.len() == 0
            &&& d.diff@.len() == 0
            &&& d.error@.len() == 0
            &&& d == (CommitPage {
                done_ok: true,
                entries: d.entries,
                picked: usize::MAX,
                diff: d.diff,
                error: d.error,
                confirm_outdated: false,
                ..c
            })
        } else {
            d == (CommitPage { done_ok: false, ..c })
        },
    }
}

/// From `a` to `b`: a commit is over. The list and the directory are read again without a word.
pub open spec fn took_commit(
    a: SvnApp,
    dir: usize,
    ok: bool,
    message: Seq<char>,
    reload: bool,
    b: SvnApp,
    wishes: Seq<Wish>,
) -> bool {
    &&& reported(a, ok, message, b)
    &&& committed_page(a.commit, ok, b.commit)
    &&& b == (SvnApp { hint: b.hint, output: b.output, commit: b.commit, ..a })
    &&& wishes == (if reload && commits_in(a, dir) {
        seq![Wish::Status { dir, quiet: true }, Wish::Refresh { dir, quiet: true }]
    } else {
        seq![Wish::Refresh { dir, quiet: true }]
    })
}

/// From `a` to `b`: an update is over. Everything that shows the directory is read again.
pub open spec fn took_update(
    a: SvnApp,
    dir: usize,
    ok: bool,
    message: Seq<char>,
    b: SvnApp,
    wishes: Seq<Wish>,
) -> bool {
    &&& reported(a, ok, message, b)
    &&& match a.history {
        None => b.history is None,
        Some(h) => if h.dir != dir {
            b.history == a.history
        } else {
            b.history matches Some(g) && g.entries@.len() == 0 && g == (HistoryPage {
                entries: g.entries,
                picked: None,
                ..h
            })
        },
    }
    &&& b == (SvnApp { hint: b.hint, output: b.output, history: b.history, ..a })
    &&& wishes == seq![Wish::Refresh { dir, quiet: false }] + (if commits_in(a, dir) {
        seq![Wish::Status { dir, quiet: false }]
    } else {
        Seq::empty()
    }) + (match a.history {
        Some(h) => if h.dir == dir {
            seq![Wish::Log { dir, mine: h.mine, unlimited: h.unlimited, range: h.range }]
        } else {
            Seq::empty()
        },
        None => Seq::empty(),
    })
}

/// From `a` to `b`: upkeep is over.
pub open spec fn took_upkeep(
    a: SvnApp,
    dir: usize,
    ok: bool,
    message: Seq<char>,
    reload: bool,
    b: SvnApp,
    wishes: Seq<Wish>,
) -> bool {
    &&& reported(a, ok, message, b)
    &&& b == (SvnApp { hint: b.hint, output: b.output, ..a })
    &&& wishes == (if reload {
        seq![Wish::Status { dir, quiet: false }, Wish::Refresh { dir, quiet: false }]
    } else {
        Seq::empty()
    })
}

/// From `a` to `b`: the address of a repository was changed, or could not be.
pub open spec fn took_relocation(
    a: SvnApp,
    dir: usize,
    ok: bool,
    message: Seq<char>,
    b: SvnApp,
    wishes: Seq<Wish>,
) -> bool {
    &&& wishes == seq![Wish::Refresh { dir, quiet: false }]
    &&& said(b) == pushed(said(a), verdict(ok), message)
    &&& if ok {
        &&& b.hint@ == message
        &&& b == (SvnApp { hint: b.hint, output: b.output, relocate: None, ..a })
    } else {
        &&& match a.relocate {
            None => b.relocate is None,
            Some(d) => if d.dir != dir {
                b.relocate == a.relocate
            } else {
                b.relocate matches Some(e) && e.error@ == message && e == (Relocate {
                    error: e.error,
                    ..d
                })
            },
        }
        &&& b == (SvnApp { output: b.output, relocate: b.relocate, ..a })
    }
}

impl SvnApp {
    fn report(&mut self, ok: bool, message: &str)
        ensures
            reported(*old(self), ok, message@, *final(self)),
            *final(self) == (SvnApp {
                hint: final(self).hint,
                output: final(self).output,
                ..*old(self)
            }),
    {
        self.hint(message);
        let level = if ok {
            Level::Success
        } else {
            Level::Error
        };
        self.push(level, message);
    }

    fn is_committing_in(&self, dir: usize) -> (r: bool)
        ensures
            r == commits_in(*self, dir),
    {
        match &self.commit {
            Some(c) => c.dir == dir,
            None => false,
        }
    }

    /// A commit is over. The list and the directory are read again without a word.
    pub fn take_commit(&mut self, dir: usize, ok: bool, message: &str, reload: bool) -> (r: Vec<
        Wish,
    >)
        ensures
            took_commit(*old(self), dir, ok, message@, reload, *final(self), r@),
    {
        let mut wishes: Vec<Wish> = Vec::new();
        self.report(ok, message);
        if reload && self.is_committing_in(dir) {
            wishes.push(Wish::Status { dir, quiet: true });
        }
        self.commit = match self.commit.take() {
            Some(mut c) => {
                c.done_ok = ok;
                if ok {
                    c.set_entries(Vec::new());
                }
                Some(c)
            },
            None => None,
        };
        wishes.push(Wish::Refresh { dir, quiet: true });
        assert(wishes@ =~= (if reload && commits_in(*old(self), dir) {
            seq![Wish::Status { dir, quiet: true }, Wish::Refresh { dir, quiet: true }]
        } else {
            seq![Wish::Refresh { dir, quiet: true }]
        }));
        wishes
    }

    /// An update is over. Everything that shows the directory is read again.
    pub fn take_update(&mut self, dir: usize, ok: bool, message: &str) -> (r: Vec<Wish>)
        ensures
            took_update(*old(self), dir, ok, message@, *final(self), r@),
    {
        let mut wishes: Vec<Wish> = Vec::new();
        self.report(ok, message);
        wishes.push(Wish::Refresh { dir, quiet: false });
        if self.is_committing_in(dir) {
            wishes.push(Wish::Status { dir, quiet: false });
        }
        let ghost second = seq![Wish::Refresh { dir, quiet: false }] + (if commits_in(
            *old(self),
            dir,
        ) {
            seq![Wish::Status { dir, quiet: false }]
        } else {
            Seq::empty()
        });
        assert(wishes@ =~= second);
        let ghost mut third: Seq<Wish> = Seq::empty();
        self.history = match self.history.take() {
            Some(mut h) => {
                if h.dir == dir {
                    h.entries = Vec::new();
                    h.picked = None;
                    let w = Wish::Log { dir, mine: h.mine, unlimited: h.unlimited, range: h.range };
                    proof {
                        third = seq![w];
                    }
                    wishes.push(w);
                }
                Some(h)
            },
            None => None,
        };
        assert(wishes@ =~= second + third);
        wishes
    }

    /// Upkeep is over.
    pub fn take_upkeep(&mut self, dir: usize, ok: bool, message: &str, reload: bool) -> (r: Vec<
        Wish,
    >)
        ensures
            took_upkeep(*old(self), dir, ok, message@, reload, *final(self), r@),
    {
        let mut wishes: Vec<Wish> = Vec::new();
        self.report(ok, message);
        if reload {
            wishes.push(Wish::Status { dir, quiet: false });
            wishes.push(Wish::Refresh { dir, quiet: false });
            assert(wishes@ =~= seq![
                Wish::Status { dir, quiet: false },
                Wish::Refresh { dir, quiet: false },
            ]);
        }
        wishes
    }

    /// The address of a repository was changed, or could not be.
    pub fn take_relocation(&mut self, dir: usize, ok: bool, message: &str) -> (r: Vec<Wish>)
        ensures
            took_relocation(*old(self), dir, ok, message@, *final(self), r@),
    {
        let mut wishes: Vec<Wish> = Vec::new();
        wishes.push(Wish::Refresh { dir, quiet: false });
        assert(wishes@ =~= seq![Wish::Refresh { dir, quiet: false }]);
        if ok {
            self.report(true, message);
            self.relocate = None;
        } else {
            self.push(Level::Error, message);
            self.relocate = match self.relocate.take() {
                Some(mut d) => {
                    if d.dir == dir {
                        d.error = message.to_owned();
                    }
                    Some(d)
                },
                None => None,
            };
        }
        wishes
    }
}

// ---------------------------------------------------------------- differences and logs of files

/// From `a` to `b`: what a commit did to a file was read.
pub open spec fn took_file_diff(a: SvnApp, dir: usize, ok: bool, message: Seq<char>, b: SvnApp) -> bool {
    &&& match a.file_diff {
        None => b.file_diff is None,
        Some(d) => if d.dir != dir {
            b.file_diff == a.file_diff
        } else {
            b.file_diff matches Some(e) && e.diff@ == message && e.error@ == (if ok {
                Seq::empty()
            } else {
                message
            }) && e == (FileDiff { error: e.error, diff: e.diff, ..d })
        },
    }
    &&& said(b) == (if ok {
        said(a)
    } else {
        pushed(said(a), Level::Error, "读取该次提交的差异失败："@ + message)
    })
    &&& b == (SvnApp { file_diff: b.file_diff, output: b.output, ..a })
}

/// From `a` to `b`: the log of a file was read.
pub open spec fn took_file_log(
    a: SvnApp,
    dir: usize,
    entries: Vec<LogEntry>,
    ok: bool,
    message: Seq<char>,
    b: SvnApp,
) -> bool {
    &&& match a.file_log {
        None => b.file_log is None,
        Some(l) => if l.dir != dir {
            b.file_log == a.file_log
        } else {
            b.file_log matches Some(m) && m.entries@ == entries@ && m.error@ == (if ok {
                Seq::empty()
            } else {
                message
            }) && m == (FileLog { error: m.error, entries: m.entries, ..l })
        },
    }
    &&& said(b) == (if ok {
        said(a)
    } else {
        pushed(said(a), Level::Error, "读取文件提交记录失败："@ + message)
    })
    &&& b == (SvnApp { file_log: b.file_log, output: b.output, ..a })
}

/// From `a` to `b`: the differences of an item of the commit page were read.
pub open spec fn took_diff(a: SvnApp, dir: usize, ok: bool, message: Seq<char>, b: SvnApp) -> bool {
    let ignored = a.commit matches Some(c) && c.diff_ignore;
    &&& match a.commit {
        None => b.commit is None,
        Some(c) => if c.dir != dir {
            b.commit == a.commit
        } else {
            b.commit matches Some(d) && d.diff@ == diff_shown(ok, message, ignored) && d == (
            CommitPage { diff: d.diff, ..c })
        },
    }
    &&& b == (SvnApp { commit: b.commit, ..a })
}

impl SvnApp {
    /// What a commit did to a file was read.
    pub fn take_file_diff(&mut self, dir: usize, ok: bool, message: &str)
        ensures
            took_file_diff(*old(self), dir, ok, message@, *final(self)),
    {
        self.file_diff = match self.file_diff.take() {
            Some(mut d) => {
                if d.dir == dir {
                    d.receive(ok, message);
                }
                Some(d)
            },
            None => None,
        };
        if !ok {
            let t = text::join2("读取该次提交的差异失败：", message);
            self.push(Level::Error, t.as_str());
        }
    }

    /// The log of a file was read.
    pub fn take_file_log(&mut self, dir: usize, entries: Vec<LogEntry>, ok: bool, message: &str)
        ensures
            took_file_log(*old(self), dir, entries, ok, message@, *final(self)),
    {
        self.file_log = match self.file_log.take() {
            Some(mut l) => {
                if l.dir == dir {
                    l.receive(entries, ok, message);
                }
                Some(l)
            },
            None => None,
        };
        if !ok {
            let t = text::join2("读取文件提交记录失败：", message);
            self.push(Level::Error, t.as_str());
        }
    }

    /// The differences of an item of the commit page were read.
    pub fn take_diff(&mut self, dir: usize, ok: bool, message: &str)
        ensures
            took_diff(*old(self), dir, ok, message@, *final(self)),
    {
        self.commit = match self.commit.take() {
            Some(mut c) => {
                if c.dir == dir {
                    c.diff = shown_diff(ok, message, c.diff_ignore);
                }
                Some(c)
            },
            None => None,
        };
    }
}

// ---------------------------------------------------------------- any result

/// From `a` to `b`: a task of `kind` handed `data` back, at the time `clock` of the day `today`.
/// `current` is the version that runs.
pub open spec fn took(
    a: SvnApp,
    kind: Kind,
    data: Data,
    clock: Seq<char>,
    today: Date,
    current: Seq<char>,
    b: SvnApp,
    wishes: Seq<Wish>,
) -> bool {
    match (kind, data) {
        (Kind::DetectSvn, Data::Svn { exe, version, candidates }) => took_client(
            a,
            exe@,
            version@,
            candidates,
            b,
            wishes,
        ),
        (Kind::AuthUser, Data::User { user }) => took_user(a, user, b, wishes),
        (Kind::CheckUpdate, Data::UpdateCheck { ok, message, info, ready, quiet }) => took_check(
            a,
            ok,
            message@,
            info,
            ready,
            quiet,
            current,
            b,
        ) && wishes.len() == 0,
        (Kind::DownloadUpdate, Data::UpdateDownloaded { ok, message, bytes }) => took_download(
            a,
            ok,
            message@,
            b,
            wishes,
        ),
        (Kind::AiLog, Data::AiLog { ok, content, message }) => took_worklog(
            a,
            ok,
            content@,
            message@,
            b,
        ) && wishes.len() == 0,
        (Kind::Refresh, Data::Wc { dir, found }) => took_checked(a, dir, found, clock, b, wishes),
        (Kind::Status, Data::Status { dir, entries, ok, message }) => took_status(
            a,
            dir,
            entries,
            ok,
            message@,
            b,
        ) && wishes.len() == 0,
        (Kind::Log, Data::Log { dir, entries, ok, message }) => took_log(
            a,
            dir,
            entries,
            ok,
            message@,
            b,
        ) && wishes.len() == 0,
        (Kind::Stats, Data::Stats { dir, epoch, entries, ok, message }) => took_stats(
            a,
            dir,
            epoch,
            entries,
            ok,
            message,
            today,
            b,
        ) && wishes.len() == 0,
        (Kind::Commit, Data::Run { dir, ok, message, reload }) => took_commit(
            a,
            dir,
            ok,
            message@,
            reload,
            b,
            wishes,
        ),
        (Kind::Update, Data::Run { dir, ok, message, reload }) => took_update(
            a,
            dir,
            ok,
            message@,
            b,
            wishes,
        ),
        (Kind::Maintain, Data::Run { dir, ok, message, reload }) => took_upkeep(
            a,
            dir,
            ok,
            message@,
            reload,
            b,
            wishes,
        ),
        (Kind::Relocate, Data::Run { dir, ok, message, reload }) => took_relocation(
            a,
            dir,
            ok,
            message@,
            b,
            wishes,
        ),
        (Kind::FileDiff, Data::Run { dir, ok, message, reload }) => took_file_diff(
            a,
            dir,
            ok,
            message@,
            b,
        ) && wishes.len() == 0,
        (Kind::FileLog, Data::Log { dir, entries, ok, message }) => took_file_log(
            a,
            dir,
            entries,
            ok,
            message@,
            b,
        ) && wishes.len() == 0,
        (Kind::Diff, Data::Run { dir, ok, message, reload }) => took_diff(a, dir, ok, message@, b)
            && wishes.len() == 0,
        (_, Data::Run { dir, ok, message, reload }) => {
            &&& reported(a, ok, message@, b)
            &&& b == (SvnApp { hint: b.hint, output: b.output, ..a })
            &&& wishes == seq![Wish::Refresh { dir, quiet: false }]
        },
        _ => b == a && wishes.len() == 0,
    }
}

impl SvnApp {
    /// Takes in what a task of `kind` handed back, at the time `clock` of the day `today`. Returns
    /// what to do next. `current` is the version that runs.
    pub fn take(&mut self, kind: Kind, data: Data, clock: &str, today: Date, current: &str) -> (r:
        Vec<Wish>)
        requires
            today.wf(),
            old(self).wf(),
        ensures
            took(*old(self), kind, data, clock@, today, current@, *final(self), r@),
            final(self).wf(),
    {
        match (kind, data) {
            (Kind::DetectSvn, Data::Svn { exe, version, candidates }) => self.take_client(
                exe.as_str(),
                version.as_str(),
                candidates,
            ),
            (Kind::AuthUser, Data::User { user }) => self.take_user(user),
            (Kind::CheckUpdate, Data::UpdateCheck { ok, message, info, ready, quiet }) => {
                self.take_check(ok, message.as_str(), info, ready, quiet, current);
                Vec::new()
            },
            (Kind::DownloadUpdate, Data::UpdateDownloaded { ok, message, bytes: _ }) => {
                self.take_download(ok, message.as_str())
            },
            (Kind::AiLog, Data::AiLog { ok, content, message }) => {
                self.take_worklog(ok, content.as_str(), message.as_str());
                Vec::new()
            },
            (Kind::Refresh, Data::Wc { dir, found }) => self.take_checked(dir, found, clock),
            (Kind::Status, Data::Status { dir, entries, ok, message }) => {
                self.take_status(dir, entries, ok, message.as_str());
                Vec::new()
            },
            (Kind::Log, Data::Log { dir, entries, ok, message }) => {
                self.take_log(dir, entries, ok, message.as_str());
                Vec::new()
            },
            (Kind::Stats, Data::Stats { dir, epoch, entries, ok, message }) => {
                self.apply_stats(dir, epoch, entries, ok, message, today);
                Vec::new()
            },
            (Kind::Commit, Data::Run { dir, ok, message, reload }) => self.take_commit(
                dir,
                ok,
                message.as_str(),
                reload,
            ),
            (Kind::Update, Data::Run { dir, ok, message, reload: _ }) => self.take_update(
                dir,
                ok,
                message.as_str(),
            ),
            (Kind::Maintain, Data::Run { dir, ok, message, reload }) => self.take_upkeep(
                dir,
                ok,
                message.as_str(),
                reload,
            ),
            (Kind::Relocate, Data::Run { dir, ok, message, reload: _ }) => self.take_relocation(
                dir,
                ok,
                message.as_str(),
            ),
            (Kind::FileDiff, Data::Run { dir, ok, message, reload: _ }) => {
                self.take_file_diff(dir, ok, message.as_str());
                Vec::new()
            },
            (Kind::FileLog, Data::Log { dir, entries, ok, message }) => {
                self.take_file_log(dir, entries, ok, message.as_str());
                Vec::new()
            },
            (Kind::Diff, Data::Run { dir, ok, message, reload: _ }) => {
                self.take_diff(dir, ok, message.as_str());
                Vec::new()
            },
            (_, Data::Run { dir, ok, message, reload: _ }) => {
                let mut wishes: Vec<Wish> = Vec::new();
                self.report(ok, message.as_str());
                wishes.push(Wish::Refresh { dir, quiet: false });
                assert(wishes@ =~= seq![Wish::Refresh { dir, quiet: false }]);
                wishes
            },
            _ => Vec::new(),
        }
    }
}

impl SvnApp {
    /// Takes in what the tasks have sent, one inbox for each task in the order of the table: first
    /// the tasks that are gone, then the lines. Returns whether there was anything, and the results
    /// in their order: each is to be taken in with `take`, and what follows from it done, before
    /// the next.
    pub fn drain(&mut self, inbox: Vec<Inbox>) -> (r: (bool, Vec<(Kind, usize, Data)>))
        requires
            old(self).wf(),
            inbox@.len() == old(self).pool.tasks@.len(),
        ensures
            final(self).wf(),
            was_polled(*old(self), inbox@, *final(self)),
            ({
                let n = inbox@.len() as int;
                let tasks = old(self).pool.tasks@;
                let lost = jobs::all_lost(tasks, inbox@, n);
                let lines = jobs::all_lines(inbox@, n);
                &&& r.1@ == jobs::all_done(tasks, inbox@, n)
                &&& r.0 == (lost.len() > 0 || lines.len() > 0 || r.1@.len() > 0)
            }),
    {
        let polled = self.pool.poll(inbox);
        let busy = polled.stranded.len() > 0 || polled.lines.len() > 0 || polled.done.len() > 0;
        self.take_lost(&polled.stranded);
        self.take_lines(&polled.lines);
        (busy, polled.done)
    }
}

/// From `a` to `b`: the table of tasks was gone through, and what is not a result was told.
pub open spec fn was_polled(a: SvnApp, inbox: Seq<Inbox>, b: SvnApp) -> bool {
    let n = inbox.len() as int;
    let lost = jobs::all_lost(a.pool.tasks@, inbox, n);
    let lines = text::views(jobs::all_lines(inbox, n));
    &&& b.pool.tasks@ == jobs::all_open(a.pool.tasks@, inbox, n)
    &&& said(b) == with_lines(
        with_lost(said(a), lost, lost.len() as int),
        lines,
        lines.len() as int,
    )
    &&& b.hint@ == (if lost.len() > 0 {
        lost_hint(lost.last().2@)
    } else {
        a.hint@
    })
    &&& b == (SvnApp { pool: b.pool, output: b.output, hint: b.hint, ..a })
}

/// No result touches the list of directories or what is typed and selected on it.
pub proof fn law_results_leave_the_list_alone(
    a: SvnApp,
    kind: Kind,
    data: Data,
    clock: Seq<char>,
    today: Date,
    current: Seq<char>,
    b: SvnApp,
    wishes: Seq<Wish>,
)
    requires
        took(a, kind, data, clock, today, current, b, wishes),
    ensures
        b.cfg.dirs == a.cfg.dirs,
        b.list == a.list,
        b.dirs@.len() == a.dirs@.len(),
        b.page == a.page,
        b.pool == a.pool,
{
}

/// `wish` asks for a check of `dir`.
pub open spec fn checks(wish: Wish, dir: usize) -> bool {
    wish matches Wish::Refresh { dir: d, quiet } && d == dir
}

/// A directory is checked again after every command that changes it, whether the command worked or
/// not; upkeep alone decides for itself.
pub proof fn law_writing_is_followed_by_a_check(
    a: SvnApp,
    kind: Kind,
    dir: usize,
    ok: bool,
    message: String,
    reload: bool,
    clock: Seq<char>,
    today: Date,
    current: Seq<char>,
    b: SvnApp,
    wishes: Seq<Wish>,
)
    requires
        kind.writes(),
        kind is Maintain ==> reload,
        took(a, kind, Data::Run { dir, ok, message, reload }, clock, today, current, b, wishes),
    ensures
        exists|k: int| 0 <= k < wishes.len() && #[trigger] checks(wishes[k], dir),
{
    if kind is Commit {
        assert(checks(wishes[wishes.len() - 1], dir));
    } else if kind is Maintain {
        assert(checks(wishes[1], dir));
    } else {
        assert(checks(wishes[0], dir));
    }
}

/// Changes that could not be read are unknown, never none.
pub proof fn law_unread_changes_are_unknown(
    a: SvnApp,
    dir: usize,
    entries: Vec<StatusEntry>,
    message: Seq<char>,
    b: SvnApp,
)
    requires
        dir < a.dirs@.len(),
        took_status(a, dir, entries, false, message, b),
    ensures
        b.dirs@[dir as int].changed is None,
        b.dirs@[dir as int].conflicts is None,
        b.dirs@[dir as int].changes@.len() == 0,
{
}

// ---------------------------------------------------------------- laws of single results

/// How a line is meant: a command by how it begins; otherwise an error, a warning or a success by
/// what stands in it, the graver one first; otherwise a mere report.
pub proof fn law_lines_are_meant_by_their_words(line: Seq<char>)
    ensures
        ({
            let command = line.len() > 0 && (line[0] == '$' || line[0] == '→');
            let error = stands_in(line, "失败"@) || stands_in(line, "Error"@) || stands_in(
                line,
                "svn: E"@,
            );
            let warning = stands_in(line, "Warning"@) || stands_in(line, "警告"@) || stands_in(
                line,
                "冲突"@,
            );
            let success = stands_in(line, "完成"@) || line.len() > 0 && (line[0] == 'A' || line[0]
                == 'D');
            &&& level_of(line) == Level::Command <==> command
            &&& level_of(line) == Level::Error <==> !command && error
            &&& level_of(line) == Level::Warning <==> !command && !error && warning
            &&& level_of(line) == Level::Success <==> !command && !error && !warning && success
        }),
{
    reveal_strlit("$");
    reveal_strlit("→");
    reveal_strlit("A");
    reveal_strlit("D");
    crate::commit::lemma_stands_in(line, "失败"@);
    crate::commit::lemma_stands_in(line, "Error"@);
    crate::commit::lemma_stands_in(line, "svn: E"@);
    crate::commit::lemma_stands_in(line, "Warning"@);
    crate::commit::lemma_stands_in(line, "警告"@);
    crate::commit::lemma_stands_in(line, "冲突"@);
    crate::commit::lemma_stands_in(line, "完成"@);
    if line.len() > 0 {
        let head = line.subrange(0, 1);
        assert(head[0] == line[0]);
        assert(line[0] == '$' ==> head =~= "$"@);
        assert(line[0] == '→' ==> head =~= "→"@);
        assert(line[0] == 'A' ==> head =~= "A"@);
        assert(line[0] == 'D' ==> head =~= "D"@);
        assert("$"@[0] == '$' && "→"@[0] == '→' && "A"@[0] == 'A' && "D"@[0] == 'D');
    }
}

/// Of the checks that wait, those of other directories go on waiting, in their order.
pub proof fn law_other_checks_go_on_waiting(list: Seq<(usize, bool)>, dir: usize, n: int)
    requires
        0 <= n <= list.len(),
    ensures
        other_checks(list, dir, n) == list.take(n).filter(|e: (usize, bool)| e.0 != dir),
    decreases n,
{
    reveal(Seq::filter);
    if n > 0 {
        law_other_checks_go_on_waiting(list, dir, n - 1);
        assert(list.take(n).drop_last() =~= list.take(n - 1));
        assert(list.take(n).last() == list[n - 1]);
    }
}

/// A check of a directory that waits follows as the first of its directory asked for it, and none
/// follows where none waits.
pub proof fn law_the_first_waiting_check_follows(list: Seq<(usize, bool)>, dir: usize, i: int, k: int)
    requires
        0 <= i <= k,
    ensures
        k < list.len() && list[k].0 == dir && (forall|j: int|
            i <= j < k ==> (#[trigger] list[j]).0 != dir) ==> waiting_check(list, dir, i) == Some(
            list[k].1,
        ),
        (forall|j: int| i <= j < list.len() ==> (#[trigger] list[j]).0 != dir) ==> waiting_check(
            list,
            dir,
            i,
        ) is None,
    decreases list.len() - i,
{
    if i < list.len() && list[i].0 != dir && i < k {
        law_the_first_waiting_check_follows(list, dir, i + 1, k);
    } else if i < list.len() && list[i].0 != dir {
        law_the_first_waiting_check_follows(list, dir, i + 1, i + 1);
    }
}

/// What a check found is shown of its directory, item by item, and of no other; nothing else of the
/// program changes but the checks that wait.
pub proof fn law_checks_are_shown(
    a: SvnApp,
    dir: usize,
    found: Checked,
    clock: Seq<char>,
    b: SvnApp,
    wishes: Seq<Wish>,
)
    requires
        took_checked(a, dir, found, clock, b, wishes),
        dir < a.dirs@.len(),
    ensures
        ({
            let v = b.dirs@[dir as int];
            &&& v.info == found.info
            &&& v.remote == found.remote && v.remote_msg == found.remote_msg && v.remote_rev
                == found.remote_rev
            &&& v.last_rev == found.last_rev && v.last_author == found.last_author && v.last_date
                == found.last_date
            &&& v.changed == found.changed && v.changes == found.changes
            &&& v.conflicts == found.conflicts
            &&& v.out_of_date == found.out_of_date
            &&& v.checked_at@ == clock
        }),
        forall|i: int| 0 <= i < a.dirs@.len() && i != dir ==> #[trigger] b.dirs@[i] == a.dirs@[i],
        b.cfg == a.cfg && b.output == a.output && b.hint == a.hint && b.page == a.page && b.commit
            == a.commit && b.history == a.history && b.stats == a.stats && b.pool == a.pool,
        (exists|k: int| 0 <= k < a.timing.pending_refresh@.len() && (
        #[trigger] a.timing.pending_refresh@[k]).0 == dir) <==> wishes.len() > 0,
        forall|k: int|
            0 <= k < b.timing.pending_refresh@.len() ==> (
            #[trigger] b.timing.pending_refresh@[k]).0 != dir,
{
    let list = a.timing.pending_refresh@;
    let n = list.len() as int;
    law_other_checks_go_on_waiting(list, dir, n);
    assert(list.take(n) =~= list);
    lemma_waiting(list, dir, 0);
    match waiting_check(list, dir, 0) {
        Some(_) => {
            let others = |e: (usize, bool)| e.0 != dir;
            assert forall|k: int| 0 <= k < b.timing.pending_refresh@.len() implies (
            #[trigger] b.timing.pending_refresh@[k]).0 != dir by {
                list.lemma_filter_pred(others, k);
            }
        },
        None => {},
    }
}

proof fn lemma_waiting(list: Seq<(usize, bool)>, dir: usize, i: int)
    requires
        0 <= i <= list.len(),
    ensures
        waiting_check(list, dir, i) is Some <==> exists|k: int|
            i <= k < list.len() && (#[trigger] list[k]).0 == dir,
    decreases list.len() - i,
{
    if i < list.len() && list[i].0 != dir {
        lemma_waiting(list, dir, i + 1);
    }
}

/// The changes of a directory that were read are counted as what an upload takes along and as what
/// is in conflict or incomplete; where they could not be read, nothing is known of them.
pub proof fn law_read_changes_are_counted(
    before: DirView,
    entries: Seq<StatusEntry>,
    ok: bool,
    v: DirView,
)
    requires
        counted_view(before, entries, ok, v),
    ensures
        ok ==> status_views(v.changes@) == status_views(entries).filter(
            |e: crate::svn::StatusView|
                e.item is Added || e.item is Modified || e.item is Deleted || e.item is Replaced
                    || e.item is Unversioned || e.item is Missing,
        ),
        ok ==> (v.changed matches Some(k) && k == v.changes@.len()),
        ok ==> (v.conflicts matches Some(k) && k == status_views(entries).filter(
            |e: crate::svn::StatusView| e.item is Conflict || e.item is Incomplete,
        ).len()),
        !ok ==> v.changed is None && v.conflicts is None && v.changes@.len() == 0,
        v.out_of_date == before.out_of_date && v.remote == before.remote && v.info == before.info,
{
    let sv = status_views(entries);
    crate::svn::law_changes_and_conflicts(sv, sv.len() as int);
    assert(sv.take(sv.len() as int) =~= sv);
    assert(status_views(v.changes@).len() == v.changes@.len());
}

/// Records that were read are shown on the page, or in the window, of their directory and nowhere
/// else, and nothing else on it changes. Where they could not be read, the page keeps what it
/// shows and says why.
pub proof fn law_records_reach_their_page(
    a: SvnApp,
    dir: usize,
    entries: Vec<LogEntry>,
    ok: bool,
    message: Seq<char>,
    b: SvnApp,
)
    ensures
        took_log(a, dir, entries, ok, message, b) ==> {
            &&& !(a.history matches Some(h) && h.dir == dir) ==> b.history == a.history
            &&& a.history matches Some(h) ==> h.dir == dir ==> {
                &&& b.history matches Some(g) && g.dir == h.dir && g.mine == h.mine && g.range
                    == h.range && g.preset == h.preset && if ok {
                    g.entries == entries
                } else {
                    g.entries == h.entries && g.error@ == message
                }
            }
            &&& ok ==> said(b) == said(a)
            &&& b.file_log == a.file_log && b.commit == a.commit && b.stats == a.stats && b.hint
                == a.hint
        },
        took_file_log(a, dir, entries, ok, message, b) ==> {
            &&& !(a.file_log matches Some(l) && l.dir == dir) ==> b.file_log == a.file_log
            &&& a.file_log matches Some(l) ==> l.dir == dir ==> {
                &&& b.file_log matches Some(m) && m.dir == l.dir && m.url == l.url && m.name
                    == l.name && m.entries@ == entries@ && (m.error@.len() == 0 <==> ok
                    || message.len() == 0)
            }
            &&& b.history == a.history && b.commit == a.commit && b.stats == a.stats && b.hint
                == a.hint
        },
{
}

/// What was compared is shown in the window, or on the page, of its directory and nowhere else, with
/// the file and the commit that it is about.
pub proof fn law_differences_reach_their_window(
    a: SvnApp,
    dir: usize,
    ok: bool,
    message: Seq<char>,
    b: SvnApp,
)
    ensures
        took_file_diff(a, dir, ok, message, b) ==> {
            &&& !(a.file_diff matches Some(d) && d.dir == dir) ==> b.file_diff == a.file_diff
            &&& a.file_diff matches Some(d) ==> d.dir == dir ==> {
                &&& b.file_diff matches Some(e) && e.dir == d.dir && e.path == d.path && e.revision
                    == d.revision && e.url == d.url && e.diff@ == message && (e.error@.len() == 0
                    <==> ok || message.len() == 0)
            }
            &&& b.commit == a.commit && b.history == a.history && b.hint == a.hint
        },
        took_diff(a, dir, ok, message, b) ==> {
            &&& !(a.commit matches Some(c) && c.dir == dir) ==> b.commit == a.commit
            &&& a.commit matches Some(c) ==> c.dir == dir ==> {
                &&& b.commit matches Some(d) && d.dir == c.dir && d.entries == c.entries && d.picked
                    == c.picked && d.message == c.message
            }
            &&& b.file_diff == a.file_diff && b.history == a.history && b.output == a.output
        },
{
}

/// A commit that went well leaves nothing in the list and nothing picked; one that did not leaves
/// the list as it is. Either way the directory is checked again, and its changes are read again
/// only where they are shown and the working copy may have changed.
pub proof fn law_commits_empty_the_list(
    a: SvnApp,
    dir: usize,
    ok: bool,
    message: Seq<char>,
    reload: bool,
    b: SvnApp,
    wishes: Seq<Wish>,
)
    requires
        took_commit(a, dir, ok, message, reload, b, wishes),
    ensures
        a.commit is Some <==> b.commit is Some,
        a.commit matches Some(c) ==> (b.commit matches Some(d) && d.dir == c.dir && d.done_ok == ok
            && if ok {
            d.entries@.len() == 0 && d.picked == usize::MAX && !d.confirm_outdated
                && d.error@.len() == 0
        } else {
            d.entries == c.entries && d.picked == c.picked && d.error == c.error
        }),
        wishes.contains(Wish::Refresh { dir, quiet: true }),
        wishes.contains(Wish::Status { dir, quiet: true }) <==> reload && (
        a.commit matches Some(c) && c.dir == dir),
        wishes.len() <= 2,
        b.cfg == a.cfg && b.dirs == a.dirs && b.history == a.history,
{
    let n = wishes.len() - 1;
    assert(wishes[n] == (Wish::Refresh { dir, quiet: true }));
    if reload && commits_in(a, dir) {
        assert(wishes[0] == (Wish::Status { dir, quiet: true }));
    }
}

/// After an update the directory is checked again, and whatever page shows it is read again, as it
/// was read before; pages of other directories are left alone.
pub proof fn law_updates_read_again_what_is_shown(
    a: SvnApp,
    dir: usize,
    ok: bool,
    message: Seq<char>,
    b: SvnApp,
    wishes: Seq<Wish>,
)
    requires
        took_update(a, dir, ok, message, b, wishes),
    ensures
        wishes[0] == (Wish::Refresh { dir, quiet: false }),
        wishes.contains(Wish::Status { dir, quiet: false }) <==> (a.commit matches Some(c) && c.dir
            == dir),
        a.history matches Some(h) ==> h.dir == dir ==> wishes.last() == (Wish::Log {
            dir,
            mine: h.mine,
            unlimited: h.unlimited,
            range: h.range,
        }) && (b.history matches Some(g) && g.entries@.len() == 0 && g.picked is None),
        a.history matches Some(h) ==> h.dir != dir ==> b.history == a.history,
        wishes.len() == 1 + (if a.commit matches Some(c) && c.dir == dir {
            1int
        } else {
            0
        }) + (if a.history matches Some(h) && h.dir == dir {
            1int
        } else {
            0
        }),
        b.commit == a.commit && b.cfg == a.cfg && b.dirs == a.dirs,
{
    if commits_in(a, dir) {
        assert(wishes[1] == (Wish::Status { dir, quiet: false }));
    } else {
        assert forall|i: int| 0 <= i < wishes.len() implies wishes[i] != (Wish::Status {
            dir,
            quiet: false,
        }) by {}
    }
}

/// A client that was found is used and kept in the settings, and its version is asked for; the
/// directories are checked with it where that was asked for. Where none was found, the settings
/// stay as they are and are opened. Either way the search is over.
pub proof fn law_found_clients_are_used(
    a: SvnApp,
    exe: Seq<char>,
    version: Seq<char>,
    candidates: Vec<String>,
    b: SvnApp,
    wishes: Seq<Wish>,
)
    requires
        took_client(a, exe, version, candidates, b, wishes),
    ensures
        !b.login.probing && !b.login.refresh_after_detect && b.login.candidates == candidates,
        exe.len() > 0 ==> b.svn.exe@ == b.cfg.svn_exe@ && b.svn.exe@ == unquoted(exe)
            && b.show_settings == a.show_settings && wishes.contains(Wish::Version)
            && wishes.contains(Wish::Save { told: false }) && (wishes.contains(Wish::RefreshAll)
            <==> a.login.refresh_after_detect) && b.login.svn_user@.len() == 0
            && !b.login.user_probed,
        exe.len() == 0 ==> b.svn == a.svn && b.cfg == a.cfg && b.show_settings && wishes.len() == 0,
        b.cfg.dirs == a.cfg.dirs && b.dirs == a.dirs,
{
    if exe.len() > 0 {
        assert(wishes[0] == Wish::Version);
        assert(wishes[1] == (Wish::Save { told: false }));
        if a.login.refresh_after_detect {
            assert(wishes[2] == Wish::RefreshAll);
        }
    }
}

/// Once it is known who is logged in, a history that had nobody's name takes that name, and is read
/// again exactly where it is to show the own commits; one that had a name keeps it. The statistics
/// are read exactly where they wait for a name.
pub proof fn law_users_are_told_to_the_pages(a: SvnApp, user: String, b: SvnApp, wishes: Seq<Wish>)
    requires
        took_user(a, user, b, wishes),
    ensures
        b.login.svn_user@ == user@,
        a.history matches Some(h) ==> (b.history matches Some(g) && g.dir == h.dir && if h.author@.len()
            > 0 {
            g == h
        } else {
            g.author == user && (g.mine <==> h.mine || a.cfg.history_only_mine)
        }),
        wishes.contains(Wish::Stats) <==> a.page == Page::Stats && (
        a.stats matches Some(s) && s.expected@.len() == 0),
        (exists|i: int| 0 <= i < wishes.len() && (#[trigger] wishes[i]) is Log) <==> (
        a.history matches Some(h) && h.author@.len() == 0 && (h.mine || a.cfg.history_only_mine)),
        forall|i: int|
            0 <= i < wishes.len() && (#[trigger] wishes[i]) is Log ==> (a.history matches Some(h)
                && wishes[i] == (Wish::Log {
                dir: h.dir,
                mine: true,
                unlimited: h.unlimited,
                range: h.range,
            })),
{
    if stats_wait(a) {
        assert(wishes.last() == Wish::Stats);
        assert(wishes[wishes.len() - 1] == Wish::Stats);
    }
    if let Some(h) = a.history {
        if h.author@.len() == 0 && (h.mine || a.cfg.history_only_mine) {
            assert(wishes[0] is Log);
        }
    }
}

/// A list of changes is shown on the page of its directory and nowhere else, and nothing in it is
/// picked then; where it could not be read, the page keeps its list.
pub proof fn law_changes_reach_their_page(
    before: Option<CommitPage>,
    dir: usize,
    entries: Vec<StatusEntry>,
    ok: bool,
    message: Seq<char>,
    after: Option<CommitPage>,
)
    requires
        listed_page(before, dir, entries, ok, message, after),
    ensures
        before is Some <==> after is Some,
        before matches Some(c) ==> c.dir != dir ==> after == before,
        before matches Some(c) ==> c.dir == dir ==> (after matches Some(d) && d.dir == dir
            && d.message == c.message && if ok {
            d.entries == entries && d.picked == usize::MAX && d.error@.len() == 0 && d.diff@.len()
                == 0 && !d.confirm_outdated
        } else {
            d.entries == c.entries && d.picked == c.picked && d.error@ == message && d.diff
                == c.diff
        }),
{
}

/// The lines that tasks sent go to the output one by one, in the order in which they came, each
/// meant as its words say.
pub proof fn law_lines_are_added_in_order(out: Seq<OutView>, lines: Seq<Seq<char>>, n: int)
    requires
        0 <= n <= lines.len(),
    ensures
        with_lines(out, lines, n) == lines.take(n).fold_left(
            out,
            |so_far: Seq<OutView>, line: Seq<char>| pushed(so_far, level_of(line), line),
        ),
    decreases n,
{
    reveal(Seq::fold_left);
    if n > 0 {
        law_lines_are_added_in_order(out, lines, n - 1);
        assert(lines.take(n).drop_last() =~= lines.take(n - 1));
        assert(lines.take(n).last() == lines[n - 1]);
    }
}

/// Every task that is gone without a result is told of as an error of its own, in order.
pub proof fn law_lost_tasks_are_told_in_order(
    out: Seq<OutView>,
    lost: Seq<(Kind, usize, String)>,
    n: int,
)
    requires
        0 <= n <= lost.len(),
    ensures
        with_lost(out, lost, n) == lost.take(n).fold_left(
            out,
            |so_far: Seq<OutView>, t: (Kind, usize, String)|
                pushed(so_far, Level::Error, lost_text(t.0, t.1, t.2@)),
        ),
    decreases n,
{
    reveal(Seq::fold_left);
    if n > 0 {
        law_lost_tasks_are_told_in_order(out, lost, n - 1);
        assert(lost.take(n).drop_last() =~= lost.take(n - 1));
        assert(lost.take(n).last() == lost[n - 1]);
    }
}

} // verus!

