//! The settings of the program, and where they are kept.

use vstd::prelude::*;
use crate::path;
use crate::text;

verus! {

/// A directory of the list.
#[derive(Debug)]
pub struct DirConfig {
    /// Where the working copy lies.
    pub path: String,
    /// The name that the list shows, if any.
    pub label: String,
    /// The directory that it is compared with.
    pub bc_target: String,
    /// Which names a comparison leaves out.
    pub bc_filter: String,
}

impl Clone for DirConfig {
    fn clone(&self) -> (r: DirConfig)
        ensures
            r == *self,
    {
        DirConfig {
            path: self.path.clone(),
            label: self.label.clone(),
            bc_target: self.bc_target.clone(),
            bc_filter: self.bc_filter.clone(),
        }
    }
}

impl Default for DirConfig {
    fn default() -> (r: DirConfig)
        ensures
            r.path@.len() == 0,
            r.label@.len() == 0,
            r.bc_target@.len() == 0,
            r.bc_filter@.len() == 0,
    {
        DirConfig {
            path: String::new(),
            label: String::new(),
            bc_target: String::new(),
            bc_filter: String::new(),
        }
    }
}

/// The settings.
#[derive(Debug)]
pub struct Config {
    pub svn_exe: String,
    pub bc_exe: String,
    /// The side that the server's version takes in a comparison, `left` or `right`.
    pub bc_server_side: String,
    pub auth_user: String,
    pub auth_pass: String,
    pub dirs: Vec<DirConfig>,
    /// How many records of the history are read.
    pub log_limit: i64,
    /// Seconds between two automatic checks; 0 turns them off.
    pub auto_refresh: u64,
    /// `system`, `light` or `dark`.
    pub theme: String,
    pub history_only_mine: bool,
    /// `official` or `custom`.
    pub update_source: String,
    pub update_server: String,
    pub check_update_on_start: bool,
    pub auto_update_check: bool,
    pub update_after_commit: bool,
    pub auto_start: bool,
    pub home_compact: bool,
    pub ai_url: String,
    pub ai_key: String,
    pub ai_model: String,
    pub ai_tone: String,
}

impl Default for Config {
    fn default() -> (r: Config)
        ensures
            r.svn_exe@.len() == 0,
            r.bc_exe@.len() == 0,
            r.bc_server_side@ == "left"@,
            r.auth_user@.len() == 0,
            r.auth_pass@.len() == 0,
            r.dirs@.len() == 0,
            r.log_limit == 100,
            r.auto_refresh == 120,
            r.theme@ == "system"@,
            r.history_only_mine,
            r.update_source@ == "official"@,
            r.update_server@.len() == 0,
            r.check_update_on_start,
            !r.auto_update_check,
            r.update_after_commit,
            !r.auto_start,
            !r.home_compact,
            r.ai_url@.len() == 0,
            r.ai_key@.len() == 0,
            r.ai_model@.len() == 0,
            r.ai_tone@.len() == 0,
    {
        Config {
            svn_exe: String::new(),
            bc_exe: String::new(),
            bc_server_side: "left".to_owned(),
            auth_user: String::new(),
            auth_pass: String::new(),
            dirs: Vec::new(),
            log_limit: 100,
            auto_refresh: 120,
            theme: "system".to_owned(),
            history_only_mine: true,
            update_source: "official".to_owned(),
            update_server: String::new(),
            check_update_on_start: true,
            auto_update_check: false,
            update_after_commit: true,
            auto_start: false,
            home_compact: false,
            ai_url: String::new(),
            ai_key: String::new(),
            ai_model: String::new(),
            ai_tone: String::new(),
        }
    }
}

/// The directory of the settings, under `appdata` where that is known and under `temp` otherwise.
pub open spec fn settings_dir(appdata: Option<Seq<char>>, temp: Seq<char>) -> Seq<char> {
    path::joined(
        match appdata {
            Some(dir) => dir,
            None => temp,
        },
        "SVNManager"@,
    )
}

/// The directory of the settings.
pub fn config_dir(appdata: &Option<String>, temp: &str) -> (r: String)
    ensures
        r@ == settings_dir(
            match *appdata {
                Some(dir) => Some(dir@),
                None => None,
            },
            temp@,
        ),
{
    match appdata {
        Some(dir) => path::join(dir.as_str(), "SVNManager"),
        None => path::join(temp, "SVNManager"),
    }
}

/// The file of the settings.
pub fn config_file(appdata: &Option<String>, temp: &str) -> (r: String)
    ensures
        r@ == path::joined(
            settings_dir(
                match *appdata {
                    Some(dir) => Some(dir@),
                    None => None,
                },
                temp@,
            ),
            "config.json"@,
        ),
{
    let dir = config_dir(appdata, temp);
    path::join(dir.as_str(), "config.json")
}

/// The text of the settings without the marks that an editor may have put in front of it.
pub fn config_text(raw: &str) -> (r: String)
    ensures
        r@ == text::strip_start(raw@, '\u{feff}', '\u{feff}'),
{
    text::stripped_start(raw, '\u{feff}', '\u{feff}')
}

/// What a theme is set to.
#[derive(Clone, Copy, Debug, PartialEq, Eq, Structural)]
pub enum Theme {
    System,
    Light,
    Dark,
}

/// The theme that a word of the settings stands for.
pub open spec fn theme_named(word: Seq<char>) -> Theme {
    if word == "light"@ {
        Theme::Light
    } else if word == "dark"@ {
        Theme::Dark
    } else {
        Theme::System
    }
}

/// The theme that a word of the settings stands for.
pub fn theme_of(word: &str) -> (r: Theme)
    ensures
        r == theme_named(word@),
{
    if text::same(word, "light") {
        Theme::Light
    } else if text::same(word, "dark") {
        Theme::Dark
    } else {
        Theme::System
    }
}

/// A theme goes by its word in small letters; every other word stands for that of the system. The
/// settings lie under the directory for such data where there is one, and under the one for
/// passing files otherwise.
pub proof fn law_themes_and_places(word: Seq<char>, dir: Seq<char>, temp: Seq<char>)
    ensures
        theme_named(seq!['l', 'i', 'g', 'h', 't']) == Theme::Light,
        theme_named(seq!['d', 'a', 'r', 'k']) == Theme::Dark,
        word != seq!['l', 'i', 'g', 'h', 't'] && word != seq!['d', 'a', 'r', 'k']
            ==> theme_named(word) == Theme::System,
        settings_dir(Some(dir), temp) == settings_dir(None, dir),
        settings_dir(None, temp) == path::joined(temp, "SVNManager"@),
{
    reveal_strlit("light");
    reveal_strlit("dark");
    assert("light"@ =~= seq!['l', 'i', 'g', 'h', 't']);
    assert("dark"@ =~= seq!['d', 'a', 'r', 'k']);
    assert("light"@.len() != "dark"@.len());
}

} // verus!

