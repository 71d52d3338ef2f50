//! The line on top of the window: the connection, the task that runs, the theme and the work log.

use vstd::prelude::*;
use crate::config::Config;
use crate::jobs::{first_label, runs, Kind};
use crate::model::{DirView, Page};
use crate::state::{save_if, saves, News, SvnApp, Wish, Worklog};
use crate::text;

verus! {

// ---------------------------------------------------------------- the connection

/// A colour, a short text and a longer one.
#[derive(Debug)]
pub struct Connection {
    pub color: (u8, u8, u8),
    pub text: String,
    pub reason: String,
}

/// How many of the first `n` directories are connected.
pub open spec fn connected_among(dirs: Seq<DirView>, n: int) -> int
    decreases n,
{
    if n <= 0 {
        0
    } else {
        connected_among(dirs, n - 1) + if dirs[n - 1].remote == Some(true) {
            1int
        } else {
            0
        }
    }
}

/// Why the first directory from `i` on that says so is not connected.
pub open spec fn first_reason(dirs: Seq<DirView>, i: int) -> Seq<char>
    decreases dirs.len() - i,
{
    if i >= dirs.len() {
        "无法访问仓库"@
    } else if dirs[i].remote is Some && dirs[i].remote_msg@.len() > 0 {
        dirs[i].remote_msg@
    } else {
        first_reason(dirs, i + 1)
    }
}

/// What the top line says of the connection: `c` shows it.
pub open spec fn shows_connection(a: SvnApp, is_file: bool, c: Connection) -> bool {
    let total = a.cfg.dirs@.len() as int;
    let ok = connected_among(a.dirs@, a.dirs@.len() as int);
    let of = text::decimal(ok) + "/"@ + text::decimal(total) + "）"@;
    if a.login.probing || runs(a.pool.tasks@, Kind::DetectSvn, usize::MAX) {
        &&& c.color == (240u8, 190u8, 70u8)
        &&& c.text@ == "正在寻找 svn.exe"@
        &&& c.reason@ == "自动探测 SVN 命令行工具"@
    } else if !a.usable(is_file) {
        &&& c.color == (240u8, 100u8, 100u8)
        &&& c.text@ == "未找到 svn.exe"@
        &&& c.reason@ == "路径无效："@ + a.svn.exe@
    } else if total == 0 {
        &&& c.color == (150u8, 150u8, 150u8)
        &&& c.text@ == "svn "@ + (match a.login.version {
            Some(v) => v@,
            None => Seq::empty(),
        }) + " 可用，尚未添加目录"@
        &&& c.reason@ == "添加工作副本目录后会自动检测连接"@
    } else if !SvnApp::any_checked(a.dirs@) {
        &&& c.color == (150u8, 150u8, 150u8)
        &&& c.text@ == "等待检测"@
        &&& c.reason@ == "尚未完成连接检测"@
    } else if ok == total {
        &&& c.color == (80u8, 200u8, 120u8)
        &&& c.text@ == "已连接 SVN（"@ + of
        &&& c.reason@ == "全部目录均可访问仓库"@
    } else if ok == 0 {
        &&& c.color == (240u8, 100u8, 100u8)
        &&& c.text@ == "未连接 SVN（0/"@ + text::decimal(total) + "）"@
        &&& c.reason@ == first_reason(a.dirs@, 0)
    } else {
        &&& c.color == (240u8, 190u8, 70u8)
        &&& c.text@ == "部分连接（"@ + of
        &&& c.reason@ == "存在无法访问的目录"@
    }
}

fn shown(color: (u8, u8, u8), text: &str, reason: &str) -> (r: Connection)
    ensures
        r.color == color,
        r.text@ == text@,
        r.reason@ == reason@,
{
    Connection { color, text: text.to_owned(), reason: reason.to_owned() }
}

fn part_of(front: &str, ok: usize, total: usize) -> (r: String)
    ensures
        r@ == front@ + (text::decimal(ok as int) + "/"@ + text::decimal(total as int) + "）"@),
{
    let a = text::count(ok);
    let b = text::count(total);
    let mut t = text::join3(a.as_str(), "/", b.as_str());
    t.append("）");
    text::join2(front, t.as_str())
}

impl SvnApp {
    fn count_connected(&self) -> (r: (bool, usize))
        ensures
            r.0 == SvnApp::any_checked(self.dirs@),
            r.1 == connected_among(self.dirs@, self.dirs@.len() as int),
    {
        let mut checked = false;
        let mut ok: usize = 0;
        let mut i: usize = 0;
        while i < self.dirs.len()
            invariant
                i <= self.dirs.len(),
                ok <= i,
                ok == connected_among(self.dirs@, i as int),
                checked == exists|k: int| 0 <= k < i && (#[trigger] self.dirs@[k]).remote is Some,
            decreases self.dirs.len() - i,
        {
            match self.dirs[i].remote {
                Some(up) => {
                    checked = true;
                    assert(self.dirs@[i as int].remote is Some);
                    if up {
                        ok += 1;
                    }
                },
                None => {},
            }
            i += 1;
        }
        (checked, ok)
    }

    fn why_cut_off(&self) -> (r: String)
        ensures
            r@ == first_reason(self.dirs@, 0),
    {
        let mut i: usize = 0;
        while i < self.dirs.len()
            invariant
                i <= self.dirs.len(),
                first_reason(self.dirs@, 0) == first_reason(self.dirs@, i as int),
            decreases self.dirs.len() - i,
        {
            if self.dirs[i].remote.is_some() && !self.dirs[i].remote_msg.as_str().is_empty() {
                return self.dirs[i].remote_msg.clone();
            }
            i += 1;
        }
        "无法访问仓库".to_owned()
    }

    /// What the top line says of the connection.
    pub fn connection(&self, is_file: bool) -> (r: Connection)
        ensures
            shows_connection(*self, is_file, r),
    {
        if self.login.probing || self.pool.has(Kind::DetectSvn, usize::MAX) {
            return shown((240, 190, 70), "正在寻找 svn.exe", "自动探测 SVN 命令行工具");
        }
        if !self.svn.available(is_file) {
            let why = text::join2("路径无效：", self.svn.exe.as_str());
            return shown((240, 100, 100), "未找到 svn.exe", why.as_str());
        }
        let total = self.cfg.dirs.len();
        if total == 0 {
            let v = match &self.login.version {
                Some(v) => v.clone(),
                None => String::new(),
            };
            assert(v@ =~= match self.login.version {
                Some(v) => v@,
                None => Seq::empty(),
            });
            let t = text::join3("svn ", v.as_str(), " 可用，尚未添加目录");
            return shown((150, 150, 150), t.as_str(), "添加工作副本目录后会自动检测连接");
        }
        let (checked, ok) = self.count_connected();
        if !checked {
            return shown((150, 150, 150), "等待检测", "尚未完成连接检测");
        }
        if ok == total {
            let t = part_of("已连接 SVN（", ok, total);
            shown((80, 200, 120), t.as_str(), "全部目录均可访问仓库")
        } else if ok == 0 {
            let n = text::count(total);
            let t = text::join3("未连接 SVN（0/", n.as_str(), "）");
            let why = self.why_cut_off();
            shown((240, 100, 100), t.as_str(), why.as_str())
        } else {
            let t = part_of("部分连接（", ok, total);
            shown((240, 190, 70), t.as_str(), "存在无法访问的目录")
        }
    }

    /// What runs, as the top line shows it.
    pub open spec fn running_text(self) -> Option<Seq<char>> {
        let n = self.pool.tasks@.len() as int;
        let label = match self.list.selected {
            Some(i) => match first_label(self.pool.tasks@, i) {
                Some(t) => Some(t),
                None => if n > 0 {
                    Some("任务执行中"@)
                } else {
                    None
                },
            },
            None => if n > 0 {
                Some("任务执行中"@)
            } else {
                None
            },
        };
        match label {
            Some(t) => Some(text::decimal(n) + " 个任务："@ + t),
            None => None,
        }
    }

    /// What runs: how many tasks, and the one of the directory that is selected.
    pub fn running_line(&self) -> (r: Option<String>)
        ensures
            match r {
                Some(t) => self.running_text() == Some(t@),
                None => self.running_text() is None,
            },
    {
        let running = self.pool.running();
        let own = match self.list.selected {
            Some(i) => self.pool.busy_label(i),
            None => None,
        };
        let label = match own {
            Some(t) => t,
            None => {
                if running == 0 {
                    return None;
                }
                "任务执行中".to_owned()
            },
        };
        let n = text::count(running);
        Some(text::join3(n.as_str(), " 个任务：", label.as_str()))
    }

    /// The button for a newer version; nothing where there is none to install.
    pub fn news_caption(&self) -> (r: Option<String>)
        ensures
            match r {
                Some(t) => self.news.update_ready && (self.news.update_info matches Some(m) && t@
                    == "↑ 新版本 V"@ + text::trim(m.version@)),
                None => !self.news.update_ready || self.news.update_info is None,
            },
    {
        if !self.news.update_ready {
            return None;
        }
        match &self.news.update_info {
            Some(m) => {
                let v = text::trimmed(m.version.as_str());
                Some(text::join2("↑ 新版本 V", v.as_str()))
            },
            None => None,
        }
    }

    /// Opens the dialog about a newer version.
    pub fn open_news(&mut self)
        ensures
            *final(self) == (SvnApp {
                news: News { show_update_confirm: true, ..old(self).news },
                ..*old(self)
            }),
    {
        self.news.show_update_confirm = true;
    }

    /// Opens the settings, or closes them.
    pub fn toggle_settings(&mut self)
        ensures
            *final(self) == (SvnApp { show_settings: !old(self).show_settings, ..*old(self) }),
    {
        self.show_settings = !self.show_settings;
    }

    /// What the button of the statistics says.
    pub fn stats_caption(&self) -> (r: &'static str)
        ensures
            r@ == (if self.page == Page::Stats {
                "提交统计 ●"@
            } else {
                "提交统计"@
            }),
    {
        match self.page {
            Page::Stats => "提交统计 ●",
            _ => "提交统计",
        }
    }

    /// The line about the client.
    pub fn exe_line(&self) -> (r: String)
        ensures
            r@ == "svn.exe："@ + (if self.cfg.svn_exe@.len() == 0 {
                "未设置"@
            } else {
                self.cfg.svn_exe@
            }),
    {
        if self.cfg.svn_exe.as_str().is_empty() {
            text::join2("svn.exe：", "未设置")
        } else {
            text::join2("svn.exe：", self.cfg.svn_exe.as_str())
        }
    }
}

// ---------------------------------------------------------------- the theme

/// The name of a theme.
pub open spec fn theme_title(word: Seq<char>) -> Seq<char> {
    if word == "light"@ {
        "浅色"@
    } else if word == "dark"@ {
        "深色"@
    } else {
        "跟随系统"@
    }
}

/// The theme behind one: the system's, the light one, the dark one, and again.
pub open spec fn theme_after(word: Seq<char>) -> Seq<char> {
    if word == "system"@ {
        "light"@
    } else if word == "light"@ {
        "dark"@
    } else {
        "system"@
    }
}

impl SvnApp {
    /// What the button of the theme says.
    pub fn theme_caption(&self) -> (r: String)
        ensures
            r@ == "主题："@ + theme_title(self.cfg.theme@),
    {
        let name = if text::same(self.cfg.theme.as_str(), "light") {
            "浅色"
        } else if text::same(self.cfg.theme.as_str(), "dark") {
            "深色"
        } else {
            "跟随系统"
        };
        text::join2("主题：", name)
    }

    /// Goes on to the next theme.
    pub fn next_theme(&mut self) -> (r: Vec<Wish>)
        ensures
            r@ == saves(true, true),
            final(self).cfg.theme@ == theme_after(old(self).cfg.theme@),
            *final(self) == (SvnApp {
                cfg: Config { theme: final(self).cfg.theme, ..old(self).cfg },
                ..*old(self)
            }),
    {
        let next = if text::same(self.cfg.theme.as_str(), "system") {
            "light"
        } else if text::same(self.cfg.theme.as_str(), "light") {
            "dark"
        } else {
            "system"
        };
        self.cfg.theme = next.to_owned();
        save_if(true, true)
    }
}

/// From any of the three themes, three presses of the button lead back to it, over both others.
pub proof fn law_themes_go_round(word: Seq<char>)
    requires
        word == "system"@ || word == "light"@ || word == "dark"@,
    ensures
        theme_after(theme_after(theme_after(word))) == word,
        theme_after(word) != word,
        theme_after(theme_after(word)) != word,
{
    reveal_strlit("system");
    reveal_strlit("light");
    reveal_strlit("dark");
    assert("system"@.len() != "light"@.len());
    assert("light"@.len() != "dark"@.len());
    assert("system"@.len() != "dark"@.len());
}

// ---------------------------------------------------------------- the work log

impl SvnApp {
    /// What the button of the work log says: it turns the picking of commits on, off again as long
    /// as nothing is picked, and then opens the window.
    pub fn worklog_caption(&self) -> (r: String)
        ensures
            r@ == (if !self.worklog.ai_mode {
                "AI 日志"@
            } else if self.worklog.ai_picks@.len() == 0 {
                "取消日志模式"@
            } else {
                "AI 日志（"@ + text::decimal(self.worklog.ai_picks@.len() as int) + "）"@
            }),
    {
        let picks = self.worklog.ai_picks.len();
        if !self.worklog.ai_mode {
            "AI 日志".to_owned()
        } else if picks == 0 {
            "取消日志模式".to_owned()
        } else {
            let n = text::count(picks);
            text::join3("AI 日志（", n.as_str(), "）")
        }
    }

    /// What the button of the work log is for, in a few words.
    pub fn worklog_tip(&self) -> (r: &'static str)
        ensures
            r@ == (if !self.worklog.ai_mode {
                "开启日志模式：各目录「提交记录」页里本人提交的版本行会出现勾选框，\n勾选后本按钮变成「AI 日志（N）」，点击弹出「AI 工作日志」窗口"@
            } else if self.worklog.ai_picks@.len() == 0 {
                "退出日志模式：隐藏提交记录页里的勾选框（已勾选的提交保留，重新开启后继续显示）"@
            } else {
                "打开「AI 工作日志」窗口：把勾选的提交交给 AI，按「口吻」整理成工作日志\n（接口在 设置 → AI 日志 里配置；模式保持开启，可到其他目录继续勾选）"@
            }),
    {
        if !self.worklog.ai_mode {
            "开启日志模式：各目录「提交记录」页里本人提交的版本行会出现勾选框，\n勾选后本按钮变成「AI 日志（N）」，点击弹出「AI 工作日志」窗口"
        } else if self.worklog.ai_picks.len() == 0 {
            "退出日志模式：隐藏提交记录页里的勾选框（已勾选的提交保留，重新开启后继续显示）"
        } else {
            "打开「AI 工作日志」窗口：把勾选的提交交给 AI，按「口吻」整理成工作日志\n（接口在 设置 → AI 日志 里配置；模式保持开启，可到其他目录继续勾选）"
        }
    }

    /// The button of the work log was pressed.
    pub fn press_worklog(&mut self)
        ensures
            *final(self) == (SvnApp {
                worklog: if !old(self).worklog.ai_mode {
                    Worklog { ai_mode: true, ..old(self).worklog }
                } else if old(self).worklog.ai_picks@.len() == 0 {
                    Worklog { ai_mode: false, ..old(self).worklog }
                } else {
                    Worklog { show_worklog: true, ..old(self).worklog }
                },
                ..*old(self)
            }),
    {
        if !self.worklog.ai_mode {
            self.worklog.ai_mode = true;
        } else if self.worklog.ai_picks.len() == 0 {
            self.worklog.ai_mode = false;
        } else {
            self.worklog.show_worklog = true;
        }
    }
}

/// The connected directories are counted one by one; a directory that was not checked is not one of
/// them.
pub proof fn law_connected_directories_are_counted(dirs: Seq<DirView>, n: int)
    requires
        0 <= n <= dirs.len(),
    ensures
        connected_among(dirs, n) == dirs.take(n).filter(
            |d: DirView| d.remote == Some(true),
        ).len(),
    decreases n,
{
    reveal(Seq::filter);
    if n > 0 {
        law_connected_directories_are_counted(dirs, n - 1);
        assert(dirs.take(n).drop_last() =~= dirs.take(n - 1));
        assert(dirs.take(n).last() == dirs[n - 1]);
    }
}

/// Why there is no connection is what the first directory says that was checked and says anything.
pub proof fn law_the_first_reason_is_given(dirs: Seq<DirView>, i: int, k: int)
    requires
        0 <= i <= k,
    ensures
        k < dirs.len() && dirs[k].remote is Some && dirs[k].remote_msg@.len() > 0 && (forall|j: int|
            i <= j < k ==> (#[trigger] dirs[j]).remote is None || dirs[j].remote_msg@.len() == 0)
            ==> first_reason(dirs, i) == dirs[k].remote_msg@,
        (forall|j: int|
            i <= j < dirs.len() ==> (#[trigger] dirs[j]).remote is None
                || dirs[j].remote_msg@.len() == 0) ==> first_reason(dirs, i) == "无法访问仓库"@,
    decreases dirs.len() - i,
{
    if i < dirs.len() && !(dirs[i].remote is Some && dirs[i].remote_msg@.len() > 0) {
        if i < k {
            law_the_first_reason_is_given(dirs, i + 1, k);
        } else {
            law_the_first_reason_is_given(dirs, i + 1, i + 1);
        }
    }
}

/// Once directories were checked with a client, the top line is green where all of them are
/// connected, red where none is, and yellow in between; then it also counts them.
pub proof fn law_connection_is_shown(a: SvnApp, is_file: bool, c: Connection)
    requires
        a.wf(),
        shows_connection(a, is_file, c),
    ensures
        ({
            let total = a.dirs@.len();
            let ok = a.dirs@.filter(|d: DirView| d.remote == Some(true)).len();
            let searching = a.login.probing || runs(a.pool.tasks@, Kind::DetectSvn, usize::MAX);
            let told = !searching && is_file && a.svn.exe@.len() > 0 && total > 0 && (exists|i: int|
                0 <= i < total && (#[trigger] a.dirs@[i]).remote is Some);
            &&& told ==> (c.color == (80u8, 200u8, 120u8) <==> ok == total)
            &&& told ==> (c.color == (240u8, 100u8, 100u8) <==> ok == 0)
            &&& told ==> (c.color == (240u8, 190u8, 70u8) <==> 0 < ok < total)
            &&& told && ok > 0 ==> text::occurs(c.text@, text::decimal(ok as int) + seq!['/']
                + text::decimal(total as int))
            &&& c.color == (80u8, 200u8, 120u8) ==> told && ok == total
            &&& searching ==> c.color == (240u8, 190u8, 70u8)
            &&& !searching && !(is_file && a.svn.exe@.len() > 0) ==> c.color == (240u8, 100u8, 100u8)
        }),
{
    reveal_strlit("/");
    assert("/"@ =~= seq!['/']);
    let n = a.dirs@.len() as int;
    law_connected_directories_are_counted(a.dirs@, n);
    assert(a.dirs@.take(n) =~= a.dirs@);
    let ok = connected_among(a.dirs@, n);
    let of = text::decimal(ok) + seq!['/'] + text::decimal(n);
    text::lemma_occurs_between("已连接 SVN（"@, of, "）"@);
    assert("已连接 SVN（"@ + of + "）"@ =~= "已连接 SVN（"@ + (text::decimal(ok) + "/"@
        + text::decimal(n) + "）"@));
    text::lemma_occurs_between("部分连接（"@, of, "）"@);
    assert("部分连接（"@ + of + "）"@ =~= "部分连接（"@ + (text::decimal(ok) + "/"@ + text::decimal(n)
        + "）"@));
}

/// Something is shown to run exactly while a task runs, with the number of tasks in front and, where
/// a task of the selected directory runs, with the first of those behind.
pub proof fn law_running_tasks_are_shown(a: SvnApp, i: usize, k: int)
    ensures
        a.running_text() is Some <==> a.pool.tasks@.len() > 0,
        a.running_text() matches Some(t) ==> text::begins(
            t,
            text::decimal(a.pool.tasks@.len() as int),
        ),
        a.list.selected == Some(i) && 0 <= k < a.pool.tasks@.len() && a.pool.tasks@[k].dir == i && (
        forall|j: int| 0 <= j < k ==> (#[trigger] a.pool.tasks@[j]).dir != i) ==> (
        a.running_text() matches Some(t) && text::ends(t, a.pool.tasks@[k].label@)),
{
    let tasks = a.pool.tasks@;
    let n = text::decimal(tasks.len() as int);
    crate::jobs::law_the_first_task_gives_the_label(tasks, i, k);
    if let Some(t) = a.running_text() {
        assert(t.subrange(0, n.len() as int) =~= n);
    }
    if a.list.selected == Some(i) && 0 <= k < tasks.len() && tasks[k].dir == i && (forall|j: int|
        0 <= j < k ==> (#[trigger] tasks[j]).dir != i) {
        let l = tasks[k].label@;
        let t = n + " 个任务："@ + l;
        assert(t.subrange(t.len() - l.len(), t.len() as int) =~= l);
    }
}

} // verus!

