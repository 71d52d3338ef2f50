//! The start of the program, its clock, and newer versions of itself.

use vstd::prelude::*;
use crate::auth;
use crate::client::Svn;
use crate::config::Config;
use crate::jobs::{runs, Data, Kind, Pool, UpdateManifest};
use crate::locate::Detected;
use crate::model::{out_views, DirView, Level, Page};
use crate::path;
use crate::results::said;
use crate::state::{
    pushed, save_if, saves, Listing, Login, News, SvnApp, Timing, Wish, Worklog,
};
use crate::svn::Run;
use crate::tasks::{began, hinted};
use crate::text;

verus! {

/// Milliseconds between two automatic looks for a newer version.
pub const AUTO_CHECK_EVERY: u64 = 300000;

// ---------------------------------------------------------------- the start

/// What is said of the font that shows Chinese.
pub open spec fn font_text(font: Option<Seq<char>>) -> Seq<char> {
    match font {
        Some(p) => "中文字体："@ + (match path::file_name(p) {
            Some(name) => name,
            None => p,
        }),
        None => "警告：未找到系统中文字体，中文可能显示为方块"@,
    }
}

/// What is said of the font that shows Chinese; `font` is where it lies.
pub fn font_line(font: &Option<String>) -> (r: String)
    ensures
        r@ == font_text(
            match *font {
                Some(p) => Some(p@),
                None => None,
            },
        ),
{
    match font {
        Some(p) => {
            let name = match path::name_of(p.as_str()) {
                Some(name) => name,
                None => p.clone(),
            };
            text::join2("中文字体：", name.as_str())
        },
        None => "警告：未找到系统中文字体，中文可能显示为方块".to_owned(),
    }
}

/// The program that compares files: the one of the settings where it exists, else the one that was
/// found.
pub fn comparer(saved: &str, is_file: bool, found: &Option<String>) -> (r: String)
    ensures
        r@ == (if is_file {
            saved@
        } else {
            match *found {
                Some(p) => p@,
                None => Seq::empty(),
            }
        }),
{
    if is_file {
        saved.to_owned()
    } else {
        match found {
            Some(p) => p.clone(),
            None => String::new(),
        }
    }
}

impl Login {
    /// Nothing is known yet but the version of the client.
    pub open spec fn opens(self, version: Option<String>) -> bool {
        &&& self.version == version
        &&& self.candidates@.len() == 0
        &&& !self.probing
        &&& self.refresh_after_detect
        &&& self.svn_user@.len() == 0
        &&& !self.user_probed
    }
}

impl Listing {
    /// Nothing is selected or typed.
    pub open spec fn opens(self) -> bool {
        &&& self.selected is None
        &&& self.new_path@.len() == 0
        &&& self.new_label@.len() == 0
        &&& self.edit_label is None
        &&& self.label_buf@.len() == 0
        &&& !self.label_focus
        &&& self.edit_filter is None
        &&& self.filter_buf@.len() == 0
        &&& !self.filter_focus
        &&& self.confirm_remove is None
    }
}

impl Timing {
    /// A look for newer versions follows after three seconds and a check of the directories after
    /// four, away from the work of the start.
    pub open spec fn opens(self, now: u64) -> bool {
        &&& self.next_refresh == later(now, 4000)
        &&& self.pending_refresh@.len() == 0
        &&& self.update_check_at == Some(later(now, 3000))
        &&& self.next_update_check == later(now, AUTO_CHECK_EVERY as int)
    }
}

impl Worklog {
    /// Nothing is picked or written.
    pub open spec fn opens(self) -> bool {
        &&& self.ai_picks@.len() == 0
        &&& self.ai_pick_dir == 0
        &&& !self.show_worklog
        &&& !self.ai_mode
        &&& self.ai_extra@.len() == 0
        &&& self.ai_result@.len() == 0
        &&& self.ai_error@.len() == 0
    }
}

impl SvnApp {
    /// The state at the start, with these settings.
    pub open spec fn opens(
        self,
        cfg: Config,
        bc: String,
        version: Option<String>,
        font_note: String,
        now: u64,
    ) -> bool {
        &&& self.cfg == cfg
        &&& self.svn.exe@ == cfg.svn_exe@
        &&& self.svn.username@ == cfg.auth_user@
        &&& self.svn.password@ == cfg.auth_pass@
        &&& self.bc == bc
        &&& self.login.opens(version)
        &&& self.dirs@.len() == cfg.dirs@.len()
        &&& forall|i: int| 0 <= i < self.dirs@.len() ==> (#[trigger] self.dirs@[i]).unknown()
        &&& self.pool.tasks@.len() == 0
        &&& self.auto_scroll
        &&& self.page == Page::Main
        &&& self.commit is None && self.history is None && self.stats is None
        &&& self.file_diff is None && self.file_log is None
        &&& self.list.opens()
        &&& self.relocate is None && self.upload_all is None
        &&& !self.show_settings
        &&& self.hint@.len() == 0
        &&& self.font_note == font_note
        &&& self.timing.opens(now)
        &&& self.news == (News {
            update_info: None,
            update_ready: false,
            show_update_confirm: false,
            update_error: None,
        })
        &&& self.worklog.opens()
    }

    fn blank(cfg: Config, bc: String, version: Option<String>, font_note: String, now: u64) -> (r:
        SvnApp)
        ensures
            r.opens(cfg, bc, version, font_note, now),
            r.output@.len() == 0,
            r.wf(),
    {
        let mut dirs: Vec<DirView> = Vec::new();
        while dirs.len() < cfg.dirs.len()
            invariant
                dirs.len() <= cfg.dirs.len(),
                forall|i: int| 0 <= i < dirs@.len() ==> (#[trigger] dirs@[i]).unknown(),
            decreases cfg.dirs.len() - dirs.len(),
        {
            dirs.push(DirView::default());
        }
        let svn = Svn {
            exe: cfg.svn_exe.clone(),
            username: cfg.auth_user.clone(),
            password: cfg.auth_pass.clone(),
        };
        SvnApp {
            cfg,
            svn,
            bc,
            login: Login {
                version,
                candidates: Vec::new(),
                probing: false,
                refresh_after_detect: true,
                svn_user: String::new(),
                user_probed: false,
            },
            dirs,
            pool: Pool::default(),
            output: Vec::new(),
            auto_scroll: true,
            page: Page::Main,
            commit: None,
            history: None,
            stats: None,
            file_diff: None,
            file_log: None,
            list: Listing {
                selected: None,
                new_path: String::new(),
                new_label: String::new(),
                edit_label: None,
                label_buf: String::new(),
                label_focus: false,
                edit_filter: None,
                filter_buf: String::new(),
                filter_focus: false,
                confirm_remove: None,
            },
            relocate: None,
            upload_all: None,
            show_settings: false,
            hint: String::new(),
            font_note,
            timing: Timing {
                next_refresh: in_seconds(now, 4),
                pending_refresh: Vec::new(),
                update_check_at: Some(in_seconds(now, 3)),
                next_update_check: in_seconds(now, AUTO_CHECK_EVERY / 1000),
            },
            news: News {
                update_info: None,
                update_ready: false,
                show_update_confirm: false,
                update_error: None,
            },
            worklog: Worklog {
                ai_picks: Vec::new(),
                ai_pick_dir: 0,
                show_worklog: false,
                ai_mode: false,
                ai_extra: String::new(),
                ai_result: String::new(),
                ai_error: String::new(),
            },
        }
    }

    /// The state at the start. `version` is that of the client of the settings, and `is_file` tells
    /// whether there is a file of its name; `config_file` is where the settings are kept. Where
    /// there is a client the directories are checked, otherwise one is searched for.
    pub fn new(
        cfg: Config,
        bc: String,
        version: Option<String>,
        is_file: bool,
        font_note: String,
        config_file: &str,
        now: u64,
    ) -> (r: (SvnApp, Vec<Wish>))
        ensures
            r.0.opens(cfg, bc, version, font_note, now),
            r.0.wf(),
            ({
                let first = pushed(
                    Seq::empty(),
                    Level::Info,
                    "SVN 管理器 已启动（配置："@ + config_file@ + "）"@,
                );
                if cfg.svn_exe@.len() > 0 && is_file {
                    &&& r.1@ == seq![Wish::RefreshAll]
                    &&& said(r.0) == pushed(
                        first,
                        Level::Success,
                        "svn.exe = "@ + cfg.svn_exe@ + "（版本 "@ + (match version {
                            Some(v) => v@,
                            None => Seq::empty(),
                        }) + "）"@,
                    )
                } else {
                    r.1@ == seq![Wish::Detect] && said(r.0) == first
                }
            }),
    {
        let mut app = SvnApp::blank(cfg, bc, version, font_note, now);
        assert(out_views(app.output@) =~= Seq::empty());
        let t = text::join3("SVN 管理器 已启动（配置：", config_file, "）");
        app.push(Level::Info, t.as_str());
        let mut wishes: Vec<Wish> = Vec::new();
        if app.svn.available(is_file) {
            let shown = match &app.login.version {
                Some(v) => v.clone(),
                None => String::new(),
            };
            assert(shown@ =~= match version {
                Some(v) => v@,
                None => Seq::empty(),
            });
            let mut line = text::join3("svn.exe = ", app.svn.exe.as_str(), "（版本 ");
            line.append(shown.as_str());
            line.append("）");
            app.push(Level::Success, line.as_str());
            wishes.push(Wish::RefreshAll);
            assert(wishes@ =~= seq![Wish::RefreshAll]);
        } else {
            wishes.push(Wish::Detect);
            assert(wishes@ =~= seq![Wish::Detect]);
        }
        (app, wishes)
    }

    /// The client has told its version, or could not.
    pub fn set_version(&mut self, version: Option<String>)
        ensures
            *final(self) == (SvnApp { login: Login { version, ..old(self).login }, ..*old(self) }),
    {
        self.login.version = version;
    }
}

// ---------------------------------------------------------------- looking for a newer version

/// A look at the source of updates.
#[derive(Debug)]
pub struct UpdateCheck {
    pub source: String,
    pub server: String,
    /// The source, as the output shows it.
    pub from: String,
    pub quiet: bool,
}

impl SvnApp {
    /// A source of updates can be asked. The official one always can; another needs an address.
    pub open spec fn source_ready(self, official: bool) -> bool {
        official || text::trim(self.cfg.update_server@).len() > 0
    }

    /// Whether a source of updates can be asked.
    pub fn update_source_ready(&self, official: bool) -> (r: bool)
        ensures
            r == self.source_ready(official),
    {
        official || !text::blank(self.cfg.update_server.as_str())
    }

    /// Begins to look for a newer version, unless that is under way. `official` tells whether the
    /// official source is chosen, whose name is `repo`. The settings are written along the way:
    /// the address may have been changed.
    pub fn spawn_update_check(&mut self, quiet: bool, official: bool, repo: &str) -> (r: (
        Vec<Wish>,
        Option<UpdateCheck>,
    ))
        ensures
            if !old(self).source_ready(official) {
                &&& r.0@.len() == 0
                &&& r.1 is None
                &&& hinted(
                    *old(self),
                    "未配置更新服务端地址，请在「设置 → 版本更新」里填写"@,
                    *final(self),
                )
            } else if runs(old(self).pool.tasks@, Kind::CheckUpdate, usize::MAX) {
                r.0@ == saves(true, true) && r.1 is None && *final(self) == *old(self)
            } else {
                &&& r.0@ == saves(true, true)
                &&& r.1 matches Some(c) && c.source@ == old(self).cfg.update_source@ && c.server@
                    == old(self).cfg.update_server@ && c.from@ == (if official {
                    repo@
                } else {
                    old(self).cfg.update_server@
                }) && c.quiet == quiet
                &&& began(*old(self), Kind::CheckUpdate, usize::MAX, "检查更新"@, *final(self))
            },
    {
        if !self.update_source_ready(official) {
            self.hint("未配置更新服务端地址，请在「设置 → 版本更新」里填写");
            return (Vec::new(), None);
        }
        let wishes = save_if(true, true);
        if self.pool.has(Kind::CheckUpdate, usize::MAX) {
            return (wishes, None);
        }
        let server = self.cfg.update_server.clone();
        let from = if official {
            repo.to_owned()
        } else {
            server.clone()
        };
        let source = self.cfg.update_source.clone();
        self.pool.spawn(Kind::CheckUpdate, usize::MAX, "检查更新".to_owned());
        assert(self.pool.tasks@.drop_last() =~= old(self).pool.tasks@);
        (wishes, Some(UpdateCheck { source, server, from, quiet }))
    }
}

/// There is anything to install: the source has another build than the one that runs, which goes by
/// the hash where the source gives one and the program could be hashed, and by the version
/// otherwise.
pub open spec fn is_news(
    version: Seq<char>,
    sha: Seq<char>,
    own: Option<Seq<char>>,
    current: Seq<char>,
) -> bool {
    match own {
        Some(h) => if sha.len() > 0 {
            h != sha
        } else {
            text::trim(version) != current
        },
        None => text::trim(version) != current,
    }
}

/// Whether there is anything to install. `own` is the hash of the program that runs, `current` its
/// version.
pub fn has_update(m: &UpdateManifest, own: &Option<String>, current: &str) -> (r: bool)
    ensures
        r == is_news(
            m.version@,
            m.sha256@,
            match *own {
                Some(h) => Some(h@),
                None => None,
            },
            current@,
        ),
{
    if let Some(h) = own {
        if !m.sha256.as_str().is_empty() {
            return !text::same(h.as_str(), m.sha256.as_str());
        }
    }
    let version = text::trimmed(m.version.as_str());
    !text::same(version.as_str(), current)
}

/// What the source of updates answered: its newest version and whether there is anything to
/// install, or why it did not answer.
#[derive(Debug)]
pub enum Answer {
    Newest(UpdateManifest, bool),
    Failed(String),
}

impl UpdateCheck {
    /// The line that announces the look; nothing where it is quiet.
    pub fn opening(&self) -> (r: Option<String>)
        ensures
            match r {
                Some(t) => !self.quiet && t@ == "$ 检查版本更新："@ + self.from@,
                None => self.quiet,
            },
    {
        if self.quiet {
            None
        } else {
            Some(text::join2("$ 检查版本更新：", self.from.as_str()))
        }
    }

    /// The lines about an answer.
    pub open spec fn lines_about(self, answer: Answer) -> Seq<Seq<char>> {
        match answer {
            Answer::Newest(m, ready) => if self.quiet {
                Seq::empty()
            } else {
                seq![
                    "→ 最新版本：V"@ + text::trim(m.version@),
                    if ready {
                        "→ 更新源上的构建与本地不同：有可更新版本"@
                    } else {
                        "→ 与本地运行的程序一致：已是最新"@
                    },
                ]
            },
            Answer::Failed(why) => Seq::empty(),
        }
    }

    /// The lines about an answer, and what the look hands back.
    pub fn finish(&self, answer: Answer) -> (r: (Vec<String>, Data))
        ensures
            text::views(r.0@) == self.lines_about(answer),
            r.1 matches Data::UpdateCheck { ok, message, info, ready, quiet } && quiet == self.quiet
                && match answer {
                Answer::Newest(m, new) => ok && message@.len() == 0 && info == Some(m) && ready
                    == new,
                Answer::Failed(why) => !ok && message == why && info is None && !ready,
            },
    {
        let mut lines: Vec<String> = Vec::new();
        let quiet = self.quiet;
        match answer {
            Answer::Newest(m, ready) => {
                if !quiet {
                    let v = text::trimmed(m.version.as_str());
                    lines.push(text::join2("→ 最新版本：V", v.as_str()));
                    if ready {
                        lines.push("→ 更新源上的构建与本地不同：有可更新版本".to_owned());
                    } else {
                        lines.push("→ 与本地运行的程序一致：已是最新".to_owned());
                    }
                }
                assert(text::views(lines@) =~= self.lines_about(answer));
                let data = Data::UpdateCheck {
                    ok: true,
                    message: String::new(),
                    info: Some(m),
                    ready,
                    quiet,
                };
                (lines, data)
            },
            Answer::Failed(why) => {
                assert(text::views(lines@) =~= self.lines_about(answer));
                let data = Data::UpdateCheck {
                    ok: false,
                    message: why,
                    info: None,
                    ready: false,
                    quiet,
                };
                (lines, data)
            },
        }
    }
}

// ---------------------------------------------------------------- getting it

/// The download of a new version.
#[derive(Debug)]
pub struct Download {
    pub url: String,
    /// What the file has to hash to, in lower case; empty where the source does not say.
    pub sha: String,
}

/// What a download does next.
#[derive(Debug)]
pub enum Fetch {
    /// Hash the file.
    Hash,
    /// Hash the file and the program that runs.
    Compare,
    /// Nothing: this is what came of it. The file is thrown away unless it can be used.
    Done(Data),
}

impl Fetch {
    /// The download is over, with `message` where it cannot be used.
    pub open spec fn is_over(self, good: bool, why: Seq<char>, size: u64) -> bool {
        self matches Fetch::Done(Data::UpdateDownloaded { ok, message, bytes }) && ok == good
            && message@ == why && bytes == size
    }
}

impl SvnApp {
    /// Begins to get the new version that was found.
    pub fn begin_update(&mut self) -> (r: Option<Download>)
        ensures
            match old(self).news.update_info {
                None => r is None && hinted(
                    *old(self),
                    "还没有检查到新版本，请先「检查更新」"@,
                    *final(self),
                ),
                Some(m) => if runs(old(self).pool.tasks@, Kind::DownloadUpdate, usize::MAX) {
                    r is None && *final(self) == *old(self)
                } else {
                    &&& r matches Some(d) && d.url@ == m.url@ && d.sha@ == text::lowercase(
                        text::trim(m.sha256@),
                    )
                    &&& began(
                        *old(self),
                        Kind::DownloadUpdate,
                        usize::MAX,
                        "下载更新"@,
                        *final(self),
                    )
                },
            },
    {
        let (url, sha) = match &self.news.update_info {
            None => {
                self.hint("还没有检查到新版本，请先「检查更新」");
                return None;
            },
            Some(m) => {
                let sha = text::trimmed(m.sha256.as_str());
                (m.url.clone(), text::lowered(sha.as_str()))
            },
        };
        if self.pool.has(Kind::DownloadUpdate, usize::MAX) {
            return None;
        }
        self.pool.spawn(Kind::DownloadUpdate, usize::MAX, "下载更新".to_owned());
        assert(self.pool.tasks@.drop_last() =~= old(self).pool.tasks@);
        Some(Download { url, sha })
    }
}

impl Download {
    /// The line that announces the download.
    pub fn opening(&self) -> (r: String)
        ensures
            r@ == "$ 正在下载新版本："@ + self.url@,
    {
        text::join2("$ 正在下载新版本：", self.url.as_str())
    }

    /// The file is there, with so many bytes; `megabytes` is how the output shows them. Where the
    /// source says what it has to hash to, that is looked at first.
    pub fn after_download(&self, megabytes: &str) -> (r: (String, Fetch))
        ensures
            r.0@ == "→ 下载完成（"@ + megabytes@ + " MB）"@,
            if self.sha@.len() > 0 {
                r.1 is Hash
            } else {
                r.1 is Compare
            },
    {
        let line = text::join3("→ 下载完成（", megabytes, " MB）");
        if self.sha.as_str().is_empty() {
            (line, Fetch::Compare)
        } else {
            (line, Fetch::Hash)
        }
    }

    /// The file could not be had.
    pub fn failed(&self, why: String) -> (r: Fetch)
        ensures
            r.is_over(false, why@, 0),
    {
        Fetch::Done(Data::UpdateDownloaded { ok: false, message: why, bytes: 0 })
    }

    /// What follows once the file was hashed, or could not be.
    pub open spec fn hashed(
        self,
        bytes: u64,
        hash: Result<String, String>,
        line: Option<String>,
        next: Fetch,
    ) -> bool {
        match hash {
            Ok(h) => if h@ == self.sha@ {
                &&& line matches Some(t) && t@ == "→ SHA256 校验通过"@
                &&& next is Compare
            } else {
                &&& line is None
                &&& next.is_over(
                    false,
                    "SHA256 校验不符（期望 "@ + self.sha@ + "，实际 "@ + h@ + "）"@,
                    bytes,
                )
            },
            Err(why) => line is None && next.is_over(false, why@, bytes),
        }
    }

    /// The file was hashed, or could not be.
    pub fn after_hash(&self, bytes: u64, hash: Result<String, String>) -> (r: (Option<String>, Fetch))
        ensures
            self.hashed(bytes, hash, r.0, r.1),
    {
        match hash {
            Ok(h) => {
                if text::same(h.as_str(), self.sha.as_str()) {
                    return (Some("→ SHA256 校验通过".to_owned()), Fetch::Compare);
                }
                let mut message = text::join3(
                    "SHA256 校验不符（期望 ",
                    self.sha.as_str(),
                    "，实际 ",
                );
                message.append(h.as_str());
                message.append("）");
                (None, Fetch::Done(Data::UpdateDownloaded { ok: false, message, bytes }))
            },
            Err(why) => {
                (None, Fetch::Done(Data::UpdateDownloaded { ok: false, message: why, bytes }))
            },
        }
    }

    /// The file and the program that runs were hashed, as far as they could be. The same program
    /// again would only be installed over and over.
    pub fn after_compare(&self, bytes: u64, new: &Option<String>, own: &Option<String>) -> (r: (
        Option<String>,
        Fetch,
    ))
        ensures
            if new matches Some(a) && (own matches Some(b) && a@ == b@) {
                &&& r.0 matches Some(t) && t@ == "→ 下载的文件与当前程序完全相同"@
                &&& r.1.is_over(
                    false,
                    "下载的文件与当前程序完全相同：那次发布传的 exe 可能没有换成新构建，已取消覆盖"@,
                    bytes,
                )
            } else {
                r.0 is None && r.1.is_over(true, Seq::empty(), bytes)
            },
    {
        let equal = match (new, own) {
            (Some(a), Some(b)) => text::same(a.as_str(), b.as_str()),
            _ => false,
        };
        if equal {
            let message = "下载的文件与当前程序完全相同：那次发布传的 exe 可能没有换成新构建，已取消覆盖".to_owned();
            (
                Some("→ 下载的文件与当前程序完全相同".to_owned()),
                Fetch::Done(Data::UpdateDownloaded { ok: false, message, bytes }),
            )
        } else {
            let message = String::new();
            assert(message@ =~= Seq::empty());
            (None, Fetch::Done(Data::UpdateDownloaded { ok: true, message, bytes }))
        }
    }
}

/// A file that does not hash to what the source says is never used.
pub proof fn law_wrong_hash_is_refused(
    d: Download,
    bytes: u64,
    hash: Result<String, String>,
    line: Option<String>,
    next: Fetch,
)
    requires
        d.hashed(bytes, hash, line, next),
        hash matches Ok(h) ==> h@ != d.sha@,
    ensures
        next matches Fetch::Done(Data::UpdateDownloaded { ok, message, bytes: b }) && !ok,
{
}

// ---------------------------------------------------------------- putting it in place

/// How the new version was put in place.
#[derive(Debug)]
pub enum Installed {
    /// It is not known where the program lies, for this reason.
    Lost(String),
    /// The new program could not be put beside the old one.
    NotStaged { staged: String, why: String },
    /// The programs could not be exchanged.
    NotSwapped(String),
    /// They were exchanged, but the new one did not start; the exchange was undone.
    NotStarted { exe: String, old: String, why: String },
    /// The new one has started.
    Started { exe: String, old: String },
}

/// The line for programs that were exchanged.
pub open spec fn swapped_text(exe: Seq<char>, old_exe: Seq<char>) -> Seq<char> {
    "→ 新版本已就位："@ + exe + "（旧程序改名到 "@ + old_exe + "，下次启动时清理）"@
}

/// From `a` to `b`: a failure is told.
pub open spec fn complained(a: SvnApp, why: Seq<char>, b: SvnApp) -> bool {
    &&& b.hint@ == why
    &&& said(b) == pushed(said(a), Level::Error, why)
    &&& b == (SvnApp { hint: b.hint, output: b.output, ..a })
}

/// From `a` to `b`: it was told how the new version was put in place.
pub open spec fn installed(a: SvnApp, how: Installed, b: SvnApp) -> bool {
    match how {
        Installed::Lost(why) => complained(a, "无法确定程序自身路径："@ + why@, b),
        Installed::NotStaged { staged, why } => complained(
            a,
            "没法把新版 exe 放到程序目录（"@ + staged@ + "）："@ + why@
                + "；请手动下载新版本替换，或把它放到有写权限的目录再更新"@,
            b,
        ),
        Installed::NotSwapped(why) => complained(a, why@, b),
        Installed::NotStarted { exe, old, why } => {
            let first = pushed(said(a), Level::Info, swapped_text(exe@, old@));
            &&& b.hint@ == why@
            &&& said(b) == pushed(first, Level::Error, why@)
            &&& b == (SvnApp { hint: b.hint, output: b.output, ..a })
        },
        Installed::Started { exe, old } => {
            let first = pushed(said(a), Level::Info, swapped_text(exe@, old@));
            &&& said(b) == pushed(first, Level::Success, "程序即将退出，新版本会自动启动…"@)
            &&& b == (SvnApp { output: b.output, ..a })
        },
    }
}

impl SvnApp {
    fn complain(&mut self, why: &str)
        ensures
            complained(*old(self), why@, *final(self)),
    {
        self.hint(why);
        self.push(Level::Error, why);
    }

    fn say_swapped(&mut self, exe: &str, old_exe: &str)
        ensures
            said(*final(self)) == pushed(
                said(*old(self)),
                Level::Info,
                swapped_text(exe@, old_exe@),
            ),
            *final(self) == (SvnApp { output: final(self).output, ..*old(self) }),
    {
        let mut t = text::join3("→ 新版本已就位：", exe, "（旧程序改名到 ");
        t.append(old_exe);
        t.append("，下次启动时清理）");
        self.push(Level::Info, t.as_str());
    }

    /// Tells how the new version was put in place.
    pub fn apply_downloaded_update(&mut self, how: Installed)
        ensures
            installed(*old(self), how, *final(self)),
    {
        match how {
            Installed::Lost(why) => {
                let t = text::join2("无法确定程序自身路径：", why.as_str());
                self.complain(t.as_str());
            },
            Installed::NotStaged { staged, why } => {
                let mut t = text::join3("没法把新版 exe 放到程序目录（", staged.as_str(), "）：");
                t.append(why.as_str());
                t.append("；请手动下载新版本替换，或把它放到有写权限的目录再更新");
                self.complain(t.as_str());
            },
            Installed::NotSwapped(why) => {
                self.complain(why.as_str());
            },
            Installed::NotStarted { exe, old, why } => {
                self.say_swapped(exe.as_str(), old.as_str());
                self.complain(why.as_str());
            },
            Installed::Started { exe, old } => {
                self.say_swapped(exe.as_str(), old.as_str());
                self.push(Level::Success, "程序即将退出，新版本会自动启动…");
            },
        }
    }
}

// ---------------------------------------------------------------- the clock

/// `a + b`, or the last moment there is.
pub open spec fn later(a: u64, b: int) -> u64 {
    if a + b > u64::MAX {
        u64::MAX
    } else {
        (a + b) as u64
    }
}

fn in_seconds(now: u64, seconds: u64) -> (r: u64)
    ensures
        r == later(now, seconds * 1000),
{
    if seconds > (u64::MAX - now) / 1000 {
        u64::MAX
    } else {
        now + seconds * 1000
    }
}

impl SvnApp {
    /// The time for the look for a newer version after the start has come.
    pub open spec fn first_check_over(self, now: u64) -> bool {
        self.timing.update_check_at matches Some(at) && now >= at
    }

    /// The look for a newer version after the start is due.
    pub open spec fn first_check_due(self, now: u64, official: bool) -> bool {
        self.first_check_over(now) && self.cfg.check_update_on_start && self.source_ready(official)
    }

    /// A look for a newer version is due again.
    pub open spec fn next_check_due(self, now: u64, official: bool) -> bool {
        self.cfg.auto_update_check && self.source_ready(official) && now
            >= self.timing.next_update_check
    }

    /// The directories are to be checked by themselves: nothing runs, and no look for a newer
    /// version starts either.
    pub open spec fn refresh_due(self, now: u64, official: bool) -> bool {
        &&& self.cfg.auto_refresh > 0
        &&& !self.login.probing
        &&& self.pool.tasks@.len() == 0
        &&& !self.first_check_due(now, official)
        &&& !self.next_check_due(now, official)
        &&& now >= self.timing.next_refresh
        &&& self.cfg.dirs@.len() > 0
    }

    /// What is due at the time `now`. The first look for a newer version is passed over without a
    /// word where it is not wanted or there is nobody to ask.
    pub fn due(&mut self, now: u64, official: bool) -> (r: Vec<Wish>)
        ensures
            r@ == (if old(self).first_check_due(now, official) {
                seq![Wish::CheckUpdate { quiet: false }]
            } else {
                Seq::empty()
            }) + (if old(self).next_check_due(now, official) {
                seq![Wish::CheckUpdate { quiet: true }]
            } else {
                Seq::empty()
            }) + (if old(self).refresh_due(now, official) {
                seq![Wish::RefreshAll]
            } else {
                Seq::empty()
            }),
            *final(self) == (SvnApp {
                timing: Timing {
                    update_check_at: if old(self).first_check_over(now) {
                        None
                    } else {
                        old(self).timing.update_check_at
                    },
                    next_update_check: if old(self).next_check_due(now, official) {
                        later(now, AUTO_CHECK_EVERY as int)
                    } else {
                        old(self).timing.next_update_check
                    },
                    next_refresh: if old(self).refresh_due(now, official) {
                        later(now, old(self).cfg.auto_refresh * 1000)
                    } else {
                        old(self).timing.next_refresh
                    },
                    ..old(self).timing
                },
                ..*old(self)
            }),
    {
        let mut wishes: Vec<Wish> = Vec::new();
        let ready = self.update_source_ready(official);
        let first = match self.timing.update_check_at {
            Some(at) => now >= at,
            None => false,
        };
        let again = self.cfg.auto_update_check && ready && now >= self.timing.next_update_check;
        let begin = first && self.cfg.check_update_on_start && ready;
        let refresh = self.cfg.auto_refresh > 0 && !self.login.probing && self.pool.running() == 0
            && !begin && !again && now >= self.timing.next_refresh && self.cfg.dirs.len() > 0;
        if first {
            self.timing.update_check_at = None;
        }
        if begin {
            wishes.push(Wish::CheckUpdate { quiet: false });
        }
        let ghost one = wishes@;
        if again {
            self.timing.next_update_check = in_seconds(now, AUTO_CHECK_EVERY / 1000);
            wishes.push(Wish::CheckUpdate { quiet: true });
        }
        let ghost two = wishes@;
        if refresh {
            self.timing.next_refresh = in_seconds(now, self.cfg.auto_refresh);
            wishes.push(Wish::RefreshAll);
        }
        assert(one =~= (if old(self).first_check_due(now, official) {
            seq![Wish::CheckUpdate { quiet: false }]
        } else {
            Seq::empty()
        }));
        assert(two =~= one + (if old(self).next_check_due(now, official) {
            seq![Wish::CheckUpdate { quiet: true }]
        } else {
            Seq::empty()
        }));
        assert(wishes@ =~= two + (if old(self).refresh_due(now, official) {
            seq![Wish::RefreshAll]
        } else {
            Seq::empty()
        }));
        wishes
    }
}

// ---------------------------------------------------------------- who is logged in, which client

/// The line that announces the question who is logged in.
pub fn auth_opening() -> (r: &'static str)
    ensures
        r@ == "$ svn auth"@,
{
    "$ svn auth"
}

/// Who is logged in: whom the client names for the server of `url`, else `fallback`. Returns the
/// line about it and what the task hands back.
pub fn auth_finish(run: &Run, url: &str, fallback: &str) -> (r: (String, Data))
    ensures
        r.1 matches Data::User { user } && r.0@ == "→ 本机 svn 登录人："@ + user@ && user@ == (
        match auth::user_read(*run, url@) {
            Some(t) => t,
            None => fallback@,
        }),
{
    let user = match auth::read_user(run, url) {
        Some(t) => t,
        None => fallback.to_owned(),
    };
    let line = text::join2("→ 本机 svn 登录人：", user.as_str());
    (line, Data::User { user })
}

/// The line that announces the search for the client.
pub fn detect_opening() -> (r: &'static str)
    ensures
        r@ == "$ 自动寻找 svn.exe（环境变量 / PATH / 注册表 / 常见安装目录 / 磁盘浅层扫描）"@,
{
    "$ 自动寻找 svn.exe（环境变量 / PATH / 注册表 / 常见安装目录 / 磁盘浅层扫描）"
}

/// The line for `n` places that were found in so many seconds, as the output shows them.
pub fn detect_line(n: usize, seconds: &str) -> (r: String)
    ensures
        r@ == "→ "@ + text::decimal(n as int) + " 个候选路径（扫描用时 "@ + seconds@ + " 秒）"@,
{
    let n = text::count(n);
    let mut t = text::join3("→ ", n.as_str(), " 个候选路径（扫描用时 ");
    t.append(seconds);
    t.append(" 秒）");
    t
}

/// What the search for the client hands back; nothing as long as it has to go on.
pub fn detect_finish(found: Detected, candidates: Vec<String>) -> (r: Option<Data>)
    ensures
        match found {
            Detected::Found(e, v) => r == Some(Data::Svn { exe: e, version: v, candidates }),
            Detected::Missing => r matches Some(Data::Svn { exe, version, candidates: c })
                && exe@.len() == 0 && version@.len() == 0 && c == candidates,
            Detected::Ask(k) => r is None,
        },
{
    match found {
        Detected::Found(exe, version) => Some(Data::Svn { exe, version, candidates }),
        Detected::Missing => Some(
            Data::Svn { exe: String::new(), version: String::new(), candidates },
        ),
        Detected::Ask(_) => None,
    }
}

/// Whether there is anything to install goes by the hashes where both are known, whatever the
/// versions say, and by the versions otherwise; white space around the offered one does not count.
pub proof fn law_news_go_by_the_hash(
    version: Seq<char>,
    other: Seq<char>,
    sha: Seq<char>,
    own: Seq<char>,
    current: Seq<char>,
)
    ensures
        sha.len() > 0 ==> (is_news(version, sha, Some(own), current) <==> own != sha),
        sha.len() > 0 ==> is_news(version, sha, Some(own), current) == is_news(
            other,
            sha,
            Some(own),
            version,
        ),
        is_news(version, sha, None, current) <==> text::trim(version) != current,
        is_news(version, Seq::empty(), Some(own), current) <==> text::trim(version) != current,
        !is_news(current, sha, None, text::trim(current)),
{
}

/// A look for a newer version is due from its time on and not before, only where it is wanted and
/// there is somebody to ask. The directories are checked only while nothing runs and no such look
/// starts, and only where there are any.
pub proof fn law_things_are_due_in_time(a: SvnApp, now: u64, then: u64, official: bool)
    requires
        now <= then,
    ensures
        a.first_check_due(now, official) ==> a.first_check_due(then, official),
        a.next_check_due(now, official) ==> a.next_check_due(then, official),
        a.timing.update_check_at is None ==> !a.first_check_due(now, official),
        a.timing.update_check_at == Some(now) ==> (a.first_check_due(then, official) <==> (
        a.cfg.check_update_on_start && a.source_ready(official))),
        a.timing.update_check_at == Some(then) && now < then ==> !a.first_check_due(now, official),
        a.timing.next_update_check == now ==> (a.next_check_due(then, official) <==> (
        a.cfg.auto_update_check && a.source_ready(official))),
        a.timing.next_update_check == then && now < then ==> !a.next_check_due(now, official),
        a.refresh_due(now, official) ==> a.pool.tasks@.len() == 0 && a.cfg.dirs@.len() > 0
            && !a.login.probing && !a.first_check_due(now, official) && !a.next_check_due(
            now,
            official,
        ) && a.cfg.auto_refresh > 0,
        a.timing.next_refresh == then && now < then ==> !a.refresh_due(now, official),
        a.timing.next_refresh == now && a.cfg.auto_refresh > 0 && a.cfg.dirs@.len() > 0
            && a.pool.tasks@.len() == 0 && !a.login.probing && !a.source_ready(official)
            ==> a.refresh_due(then, official),
{
}

/// A time that is put off lies as much later as it is to, or at the end of all times.
pub proof fn law_times_are_put_off(a: u64, b: int, c: int)
    requires
        0 <= b <= c,
    ensures
        a <= later(a, b) <= later(a, c),
        a + b <= u64::MAX ==> later(a, b) == a + b,
        a + b > u64::MAX ==> later(a, b) == u64::MAX,
{
}

} // verus!

