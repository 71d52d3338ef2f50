//! The settings window: what each of its buttons changes and says.

use vstd::prelude::*;
use crate::client::Svn;
use crate::compare::unmarked;
use crate::config::Config;
use crate::jobs::UpdateManifest;
use crate::model::Level;
use crate::results::said;
use crate::state::{pushed, save_if, saves, News, SvnApp, Wish};
use crate::tasks::hinted;
use crate::text;

verus! {

impl SvnApp {
    /// The version of the client, as the window shows it.
    pub fn version_line(&self) -> (r: String)
        ensures
            r@ == "当前SVN版本："@ + (match self.login.version {
                Some(v) => v@,
                None => "不可用"@,
            }),
    {
        match &self.login.version {
            Some(v) => text::join2("当前SVN版本：", v.as_str()),
            None => text::join2("当前SVN版本：", "不可用"),
        }
    }

    /// Tells whether the client that was set can be run.
    pub fn hint_version(&mut self)
        ensures
            hinted(
                *old(self),
                match old(self).login.version {
                    Some(v) => "svn.exe 可用，版本 "@ + v@,
                    None => "该路径无法执行，请确认是 svn.exe 命令行客户端"@,
                },
                *final(self),
            ),
    {
        let t = match &self.login.version {
            Some(v) => text::join2("svn.exe 可用，版本 ", v.as_str()),
            None => "该路径无法执行，请确认是 svn.exe 命令行客户端".to_owned(),
        };
        self.hint = t;
    }

    /// The line about a client that was found; the one in use is marked.
    pub fn candidate_line(&self, item: &str) -> (r: String)
        ensures
            r@ == (if item@ == self.cfg.svn_exe@ {
                "✓"@
            } else {
                " "@
            }) + "  "@ + item@,
    {
        if text::same(item, self.cfg.svn_exe.as_str()) {
            text::join3("✓", "  ", item)
        } else {
            text::join3(" ", "  ", item)
        }
    }

    /// Takes the account that was typed over to the client.
    pub fn apply_account(&mut self) -> (r: Vec<Wish>)
        ensures
            r@ == seq![Wish::Save { told: false }, Wish::RefreshAll],
            final(self).svn.username@ == old(self).cfg.auth_user@,
            final(self).svn.password@ == old(self).cfg.auth_pass@,
            final(self).hint@ == "账号设置已保存"@,
            *final(self) == (SvnApp {
                svn: Svn {
                    username: final(self).svn.username,
                    password: final(self).svn.password,
                    ..old(self).svn
                },
                hint: final(self).hint,
                ..*old(self)
            }),
    {
        self.svn.username = self.cfg.auth_user.clone();
        self.svn.password = self.cfg.auth_pass.clone();
        self.hint("账号设置已保存");
        let mut wishes: Vec<Wish> = Vec::new();
        wishes.push(Wish::Save { told: false });
        wishes.push(Wish::RefreshAll);
        assert(wishes@ =~= seq![Wish::Save { told: false }, Wish::RefreshAll]);
        wishes
    }

    // ------------------------------------------------------------ comparing

    /// Takes over the path of the comparing program that was typed.
    pub fn apply_bc_exe(&mut self) -> (r: Vec<Wish>)
        ensures
            r@ == saves(true, true),
            final(self).bc@ == unmarked(old(self).cfg.bc_exe@),
            *final(self) == (SvnApp { bc: final(self).bc, ..*old(self) }),
    {
        let e = text::stripped_end(self.cfg.bc_exe.as_str(), '"', '"');
        self.bc = text::stripped_start(e.as_str(), '"', '"');
        save_if(true, true)
    }

    /// Takes over the comparing program that was found, if one was.
    pub fn found_bc_exe(&mut self, found: &Option<String>) -> (r: Vec<Wish>)
        ensures
            r@ == saves(true, true),
            match *found {
                Some(p) => {
                    &&& final(self).bc@ == p@
                    &&& final(self).cfg.bc_exe@ == p@
                    &&& final(self).hint@ == "已找到 "@ + p@
                    &&& *final(self) == (SvnApp {
                        bc: final(self).bc,
                        cfg: Config { bc_exe: final(self).cfg.bc_exe, ..old(self).cfg },
                        hint: final(self).hint,
                        ..*old(self)
                    })
                },
                None => hinted(
                    *old(self),
                    "未找到 BCompare.exe，请手工填写路径"@,
                    *final(self),
                ),
            },
    {
        match found {
            Some(p) => {
                self.bc = p.clone();
                self.cfg.bc_exe = p.clone();
                self.hint = text::join2("已找到 ", p.as_str());
            },
            None => self.hint("未找到 BCompare.exe，请手工填写路径"),
        }
        save_if(true, true)
    }

    /// The line about the comparing program; `is_file` tells whether it exists.
    pub fn bc_line(&self, is_file: bool) -> (r: String)
        ensures
            r@ == "当前："@ + (if is_file {
                self.bc@
            } else {
                "未找到"@
            }),
    {
        if is_file {
            text::join2("当前：", self.bc.as_str())
        } else {
            text::join2("当前：", "未找到")
        }
    }

    /// Puts the server's version on one side of a comparison.
    pub fn set_server_side(&mut self, right: bool) -> (r: Vec<Wish>)
        ensures
            r@ == saves(true, false),
            final(self).cfg.bc_server_side@ == (if right {
                "right"@
            } else {
                "left"@
            }),
            final(self).hint@ == "已设置：调用 Beyond Compare 对比时，服务器端放在"@ + (if right {
                "右侧"@
            } else {
                "左侧"@
            }) + "侧"@,
            *final(self) == (SvnApp {
                cfg: Config { bc_server_side: final(self).cfg.bc_server_side, ..old(self).cfg },
                hint: final(self).hint,
                ..*old(self)
            }),
    {
        if right {
            self.cfg.bc_server_side = "right".to_owned();
            self.hint = text::join3(
                "已设置：调用 Beyond Compare 对比时，服务器端放在",
                "右侧",
                "侧",
            );
        } else {
            self.cfg.bc_server_side = "left".to_owned();
            self.hint = text::join3(
                "已设置：调用 Beyond Compare 对比时，服务器端放在",
                "左侧",
                "侧",
            );
        }
        save_if(true, false)
    }

    /// Tells whether the rules of the comparing program could be changed: a note, or why not.
    pub fn tell_rules(&mut self, done: Result<String, String>)
        ensures
            said(*final(self)) == (match done {
                Ok(note) => pushed(said(*old(self)), Level::Info, note@),
                Err(why) => pushed(said(*old(self)), Level::Error, "设置失败："@ + why@),
            }),
            *final(self) == (SvnApp { output: final(self).output, ..*old(self) }),
    {
        match done {
            Ok(note) => self.push(Level::Info, note.as_str()),
            Err(why) => {
                let t = text::join2("设置失败：", why.as_str());
                self.push(Level::Error, t.as_str());
            },
        }
    }

    // ------------------------------------------------------------ the rest

    /// The program was set to start with the system, or not, or that failed. Returns what to do
    /// next.
    pub fn set_auto_start(&mut self, on: bool, failed: &Option<String>) -> (r: Vec<Wish>)
        ensures
            r@ == saves(*failed is None, false),
            match *failed {
                None => {
                    &&& final(self).hint@ == (if on {
                        "已开启开机自启（下次登录 Windows 生效）"@
                    } else {
                        "已关闭开机自启"@
                    })
                    &&& *final(self) == (SvnApp {
                        cfg: Config { auto_start: on, ..old(self).cfg },
                        hint: final(self).hint,
                        ..*old(self)
                    })
                },
                Some(why) => {
                    &&& said(*final(self)) == pushed(
                        said(*old(self)),
                        Level::Error,
                        "设置开机自启失败："@ + why@,
                    )
                    &&& *final(self) == (SvnApp { output: final(self).output, ..*old(self) })
                },
            },
    {
        match failed {
            None => {
                self.cfg.auto_start = on;
                if on {
                    self.hint("已开启开机自启（下次登录 Windows 生效）");
                } else {
                    self.hint("已关闭开机自启");
                }
                save_if(true, false)
            },
            Some(why) => {
                let t = text::join2("设置开机自启失败：", why.as_str());
                self.push(Level::Error, t.as_str());
                save_if(false, false)
            },
        }
    }

    /// Tells that the source of updates was changed.
    pub fn hint_source(&mut self, official: bool)
        ensures
            hinted(
                *old(self),
                if official {
                    "更新源已改为官方 GitHub 发布"@
                } else {
                    "更新源已改为自建服务端，在下面填服务根目录地址"@
                },
                *final(self),
            ),
    {
        if official {
            self.hint("更新源已改为官方 GitHub 发布");
        } else {
            self.hint("更新源已改为自建服务端，在下面填服务根目录地址");
        }
    }

    /// The button that updates at once was pressed.
    pub fn press_update(&mut self)
        ensures
            if old(self).news.update_ready && old(self).news.update_info is Some {
                *final(self) == (SvnApp {
                    news: News { show_update_confirm: true, ..old(self).news },
                    ..*old(self)
                })
            } else {
                hinted(
                    *old(self),
                    if old(self).news.update_info is Some {
                        "当前已是最新版本"@
                    } else {
                        "请先「检查更新」"@
                    },
                    *final(self),
                )
            },
    {
        let informed = self.news.update_info.is_some();
        if self.news.update_ready && informed {
            self.news.show_update_confirm = true;
        } else if informed {
            self.hint("当前已是最新版本");
        } else {
            self.hint("请先「检查更新」");
        }
    }

    /// The line about the newest version; nothing where there is nothing to say.
    pub fn newest_line(&self, official: bool) -> (r: Option<String>)
        ensures
            match self.news.update_info {
                Some(m) => r matches Some(t) && t@ == newest_text(m),
                None => if self.source_ready(official) {
                    r is None
                } else {
                    r matches Some(t) && t@ == "未配置服务端地址，不会检查更新"@
                },
            },
    {
        match &self.news.update_info {
            Some(m) => {
                let v = text::trimmed(m.version.as_str());
                let at = text::trimmed(m.published_at.as_str());
                let mut t = text::join2("最新版本：V", v.as_str());
                if !at.as_str().is_empty() {
                    t.append("（发布于 ");
                    t.append(at.as_str());
                    t.append("）");
                }
                assert(t@ =~= newest_text(*m));
                Some(t)
            },
            None => if self.update_source_ready(official) {
                None
            } else {
                Some("未配置服务端地址，不会检查更新".to_owned())
            },
        }
    }
}

/// The line about a newest version.
pub open spec fn newest_text(m: UpdateManifest) -> Seq<char> {
    "最新版本：V"@ + text::trim(m.version@) + (if text::trim(m.published_at@).len() > 0 {
        "（发布于 "@ + text::trim(m.published_at@) + "）"@
    } else {
        Seq::empty()
    })
}

} // verus!
