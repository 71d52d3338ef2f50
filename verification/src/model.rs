//! The small types that the pages share.

use vstd::prelude::*;
use crate::svn::{status_views, StatusEntry, WcInfo};

verus! {

/// How a line of the output is meant.
#[derive(Clone, Copy, Debug, PartialEq, Eq, Structural)]
pub enum Level {
    Info,
    Command,
    Success,
    Warning,
    Error,
}

impl Level {
    /// The colour of the level, as red, green and blue.
    pub open spec fn rgb(self) -> (u8, u8, u8) {
        match self {
            Level::Info => (200, 200, 200),
            Level::Command => (120, 190, 240),
            Level::Success => (80, 200, 120),
            Level::Warning => (240, 190, 70),
            Level::Error => (240, 100, 100),
        }
    }

    /// The colour of the level, as red, green and blue.
    pub fn color(self) -> (r: (u8, u8, u8))
        ensures
            r == self.rgb(),
    {
        match self {
            Level::Info => (200, 200, 200),
            Level::Command => (120, 190, 240),
            Level::Success => (80, 200, 120),
            Level::Warning => (240, 190, 70),
            Level::Error => (240, 100, 100),
        }
    }
}

/// A line of the output.
#[derive(Debug)]
pub struct OutLine {
    pub level: Level,
    pub text: String,
}

/// The view of an `OutLine`.
pub struct OutView {
    pub level: Level,
    pub text: Seq<char>,
}

impl View for OutLine {
    type V = OutView;

    open spec fn view(&self) -> OutView {
        OutView { level: self.level, text: self.text@ }
    }
}

/// The views of output lines.
pub open spec fn out_views(v: Seq<OutLine>) -> Seq<OutView> {
    Seq::new(v.len(), |i: int| v[i]@)
}

impl Clone for OutLine {
    fn clone(&self) -> (r: OutLine)
        ensures
            r == *self,
    {
        OutLine { level: self.level, text: self.text.clone() }
    }
}

/// The dialog that changes the address of a repository.
#[derive(Debug)]
pub struct Relocate {
    pub dir: usize,
    /// The front of the address that is replaced.
    pub from: String,
    /// What it is replaced by.
    pub to: String,
    pub focus: bool,
    /// Why the last attempt failed.
    pub error: String,
}

/// The dialog that uploads all directories at once.
#[derive(Debug)]
pub struct UploadAll {
    pub message: String,
    /// The next press of the button uploads.
    pub confirm: bool,
    pub focus: bool,
    /// Which directories take part, in the order of the list.
    pub checked: Vec<bool>,
    /// The directory whose changes are shown.
    pub detail: Option<usize>,
}

impl Default for UploadAll {
    fn default() -> (r: UploadAll)
        ensures
            r.message@.len() == 0,
            !r.confirm,
            !r.focus,
            r.checked@.len() == 0,
            r.detail is None,
    {
        UploadAll {
            message: String::new(),
            confirm: false,
            focus: false,
            checked: Vec::new(),
            detail: None,
        }
    }
}

/// What is known of a directory of the list.
#[derive(Debug)]
pub struct DirView {
    pub info: Option<WcInfo>,
    pub remote: Option<bool>,
    pub remote_msg: String,
    pub remote_rev: String,
    /// The last commit on the server.
    pub last_rev: String,
    pub last_author: String,
    pub last_date: String,
    /// How many items an upload would take along.
    pub changed: Option<usize>,
    pub changes: Vec<StatusEntry>,
    /// How many items the server has in a newer version.
    pub out_of_date: Option<usize>,
    /// How many items need somebody to look at them.
    pub conflicts: Option<usize>,
    pub checked_at: String,
}

impl DirView {
    /// Nothing is known yet.
    pub open spec fn unknown(self) -> bool {
        &&& self.info is None
        &&& self.remote is None
        &&& self.remote_msg@.len() == 0
        &&& self.remote_rev@.len() == 0
        &&& self.last_rev@.len() == 0
        &&& self.last_author@.len() == 0
        &&& self.last_date@.len() == 0
        &&& self.changed is None
        &&& status_views(self.changes@).len() == 0
        &&& self.out_of_date is None
        &&& self.conflicts is None
        &&& self.checked_at@.len() == 0
    }
}

impl Default for DirView {
    fn default() -> (r: DirView)
        ensures
            r.unknown(),
    {
        DirView {
            info: None,
            remote: None,
            remote_msg: String::new(),
            remote_rev: String::new(),
            last_rev: String::new(),
            last_author: String::new(),
            last_date: String::new(),
            changed: None,
            changes: Vec::new(),
            out_of_date: None,
            conflicts: None,
            checked_at: String::new(),
        }
    }
}

/// What the window shows.
#[derive(Clone, Copy, Debug, PartialEq, Eq, Structural)]
pub enum Page {
    Main,
    Commit,
    History,
    Stats,
}

/// Upkeep of a working copy.
#[derive(Clone, Copy, Debug, PartialEq, Eq, Structural)]
pub enum Maintain {
    Add,
    Delete,
    Cleanup,
    Resolve,
    Revert,
}

impl Maintain {
    /// What the upkeep is called.
    pub open spec fn title(self) -> Seq<char> {
        match self {
            Maintain::Add => "加入版本控制"@,
            Maintain::Delete => "标记删除"@,
            Maintain::Cleanup => "清理工作副本"@,
            Maintain::Resolve => "解决冲突"@,
            Maintain::Revert => "撤销修改"@,
        }
    }

    /// The command of the client, as the output shows it.
    pub open spec fn words(self) -> Seq<char> {
        match self {
            Maintain::Add => "add --force"@,
            Maintain::Delete => "delete"@,
            Maintain::Cleanup => "cleanup"@,
            Maintain::Resolve => "resolve --accept working --recursive"@,
            Maintain::Revert => "revert --recursive"@,
        }
    }

    /// What the upkeep is called.
    pub fn label(self) -> (r: &'static str)
        ensures
            r@ == self.title(),
    {
        match self {
            Maintain::Add => "加入版本控制",
            Maintain::Delete => "标记删除",
            Maintain::Cleanup => "清理工作副本",
            Maintain::Resolve => "解决冲突",
            Maintain::Revert => "撤销修改",
        }
    }

    /// The command of the client, as the output shows it.
    pub fn command(self) -> (r: &'static str)
        ensures
            r@ == self.words(),
    {
        match self {
            Maintain::Add => "add --force",
            Maintain::Delete => "delete",
            Maintain::Cleanup => "cleanup",
            Maintain::Resolve => "resolve --accept working --recursive",
            Maintain::Revert => "revert --recursive",
        }
    }
}

} // verus!
