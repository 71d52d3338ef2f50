//! The state of the program, and the small operations on it: the output, the status line, the
//! list of directories.

use vstd::prelude::*;
use crate::client::Svn;
use crate::commit::CommitPage;
use crate::config::{Config, DirConfig};
use crate::date::Date;
use crate::history::{AiPick, HistoryPage};
use crate::jobs::{Pool, UpdateManifest};
use crate::model::{out_views, DirView, Level, OutLine, OutView, Page, Relocate, UploadAll};
use crate::path;
use crate::stats_page::StatsPage;
use crate::text;
use crate::windows::{FileDiff, FileLog};

verus! {

/// How many lines of output are kept.
pub const OUTPUT_LIMIT: usize = 3000;

/// The state of the program. Times are milliseconds since it began.
#[derive(Debug)]
pub struct SvnApp {
    pub cfg: Config,
    pub svn: Svn,
    /// The program that compares files; empty where there is none.
    pub bc: String,
    pub login: Login,
    pub dirs: Vec<DirView>,
    pub pool: Pool,
    pub output: Vec<OutLine>,
    pub auto_scroll: bool,
    pub page: Page,
    pub commit: Option<CommitPage>,
    pub history: Option<HistoryPage>,
    pub stats: Option<StatsPage>,
    pub file_diff: Option<FileDiff>,
    pub file_log: Option<FileLog>,
    pub list: Listing,
    pub relocate: Option<Relocate>,
    pub upload_all: Option<UploadAll>,
    pub show_settings: bool,
    pub hint: String,
    pub font_note: String,
    pub timing: Timing,
    pub news: News,
    pub worklog: Worklog,
}

/// What is known of the client and of who is logged in.
#[derive(Debug)]
pub struct Login {
    pub version: Option<String>,
    pub candidates: Vec<String>,
    pub probing: bool,
    pub refresh_after_detect: bool,
    pub svn_user: String,
    pub user_probed: bool,
}

/// What is selected and typed on the list of directories.
#[derive(Debug)]
pub struct Listing {
    pub selected: Option<usize>,
    pub new_path: String,
    pub new_label: String,
    pub edit_label: Option<usize>,
    pub label_buf: String,
    pub label_focus: bool,
    pub edit_filter: Option<usize>,
    pub filter_buf: String,
    pub filter_focus: bool,
    pub confirm_remove: Option<usize>,
}

/// What is to be done by itself, and when.
#[derive(Debug)]
pub struct Timing {
    pub next_refresh: u64,
    /// Checks that were asked for while one was running, and whether they are to be quiet.
    pub pending_refresh: Vec<(usize, bool)>,
    pub update_check_at: Option<u64>,
    pub next_update_check: u64,
}

/// What is known of newer versions of the program.
#[derive(Debug)]
pub struct News {
    pub update_info: Option<UpdateManifest>,
    /// There is something to install.
    pub update_ready: bool,
    pub show_update_confirm: bool,
    pub update_error: Option<String>,
}

/// The work log that is written from picked commits.
#[derive(Debug)]
pub struct Worklog {
    pub ai_picks: Vec<AiPick>,
    pub ai_pick_dir: usize,
    pub show_worklog: bool,
    pub ai_mode: bool,
    pub ai_extra: String,
    pub ai_result: String,
    pub ai_error: String,
}

/// What the state asks to be done outside.
#[derive(Debug)]
pub enum Wish {
    /// Write the settings. A failure goes to the status line where it is `told`; it is not where
    /// the status line is set after the writing.
    Save { told: bool },
    /// Ask the client for its version.
    Version,
    RefreshAll,
    Refresh { dir: usize, quiet: bool },
    Status { dir: usize, quiet: bool },
    Log { dir: usize, mine: bool, unlimited: bool, range: Option<(Date, Date)> },
    Stats,
    /// Put the new version in place that was downloaded.
    ApplyUpdate,
    CheckUpdate { quiet: bool },
    AuthUser,
    Detect,
}

/// The settings have to be written, if they are `changed`.
pub open spec fn saves(changed: bool, told: bool) -> Seq<Wish> {
    if changed {
        seq![Wish::Save { told }]
    } else {
        Seq::empty()
    }
}

/// Asks for the settings to be written, if they are `changed`.
pub fn save_if(changed: bool, told: bool) -> (r: Vec<Wish>)
    ensures
        r@ == saves(changed, told),
{
    let mut wishes: Vec<Wish> = Vec::new();
    if changed {
        wishes.push(Wish::Save { told });
    }
    assert(wishes@ =~= saves(changed, told));
    wishes
}

impl SvnApp {
    /// What is known of the directories goes with the list, and ranges of days are made of dates.
    pub open spec fn wf(self) -> bool {
        &&& self.dirs@.len() == self.cfg.dirs@.len()
        &&& self.history matches Some(h) ==> crate::date::span_wf(h.range)
        &&& self.stats matches Some(s) ==> crate::date::span_wf(s.span)
    }
}

// ---------------------------------------------------------------- output

/// Those of the first `n` lines that hold more than white space.
pub open spec fn filled(lines: Seq<Seq<char>>, level: Level, n: int) -> Seq<OutView>
    decreases n,
{
    if n <= 0 {
        Seq::empty()
    } else if text::trim(lines[n - 1]).len() > 0 {
        filled(lines, level, n - 1).push(OutView { level, text: lines[n - 1] })
    } else {
        filled(lines, level, n - 1)
    }
}

/// The newest lines, as many as are kept.
pub open spec fn newest(out: Seq<OutView>) -> Seq<OutView> {
    if out.len() > OUTPUT_LIMIT {
        out.subrange(out.len() - OUTPUT_LIMIT, out.len() as int)
    } else {
        out
    }
}

/// The output with a text behind it, line by line.
pub open spec fn pushed(out: Seq<OutView>, level: Level, s: Seq<char>) -> Seq<OutView> {
    newest(out + filled(text::lines(s), level, text::lines(s).len() as int))
}

/// Adds a text to the output, line by line, and lets the oldest lines go.
pub fn append_text(out: &mut Vec<OutLine>, level: Level, text: &str)
    ensures
        out_views(final(out)@) == pushed(out_views(old(out)@), level, text@),
{
    let ghost start = out_views(out@);
    let lines = text::lines_of(text);
    let ghost lv = text::views(lines@);
    let mut i: usize = 0;
    assert(start + filled(lv, level, 0) =~= start);
    while i < lines.len()
        invariant
            i <= lines.len(),
            lv == text::views(lines@),
            out_views(out@) == start + filled(lv, level, i as int),
        decreases lines.len() - i,
    {
        assert(lv[i as int] == lines@[i as int]@);
        if !text::blank(lines[i].as_str()) {
            let ghost before = out@;
            let line = OutLine { level, text: lines[i].clone() };
            out.push(line);
            assert(out_views(out@) =~= out_views(before).push(line@));
        }
        i += 1;
        assert(out_views(out@) =~= start + filled(lv, level, i as int));
    }
    let n = out.len();
    if n > OUTPUT_LIMIT {
        let ghost all = out@;
        let rest = out.split_off(n - OUTPUT_LIMIT);
        assert(out_views(rest@) =~= out_views(all).subrange(n - OUTPUT_LIMIT, n as int));
        *out = rest;
    }
}

impl SvnApp {
    /// Adds a text to the output, line by line, and lets the oldest lines go.
    pub fn push(&mut self, level: Level, text: &str)
        ensures
            out_views(final(self).output@) == pushed(out_views(old(self).output@), level, text@),
            *final(self) == (SvnApp { output: final(self).output, ..*old(self) }),
    {
        append_text(&mut self.output, level, text);
    }

    /// Sets the status line.
    pub fn hint(&mut self, text: &str)
        ensures
            final(self).hint@ == text@,
            *final(self) == (SvnApp { hint: final(self).hint, ..*old(self) }),
    {
        self.hint = text.to_owned();
    }

    /// Forgets the output.
    pub fn clear_output(&mut self)
        ensures
            final(self).output@.len() == 0,
            *final(self) == (SvnApp { output: final(self).output, ..*old(self) }),
    {
        self.output = Vec::new();
    }

    /// Reports whether the settings could be written; `told` is that of the wish.
    pub fn persist(&mut self, failure: &Option<String>, told: bool)
        ensures
            match *failure {
                Some(e) if told => final(self).hint@ == "保存配置失败："@ + e@ && *final(self) == (SvnApp {
                    hint: final(self).hint,
                    ..*old(self)
                }),
                _ => *final(self) == *old(self),
            },
    {
        if let Some(e) = failure {
            if told {
                let t = text::join2("保存配置失败：", e.as_str());
                self.hint = t;
            }
        }
    }
}

/// The output never holds more lines than are kept, and a short text is always in it whole.
pub proof fn law_output_keeps_the_newest(out: Seq<OutView>, level: Level, s: Seq<char>)
    ensures
        pushed(out, level, s).len() <= OUTPUT_LIMIT,
        ({
            let new = filled(text::lines(s), level, text::lines(s).len() as int);
            new.len() <= OUTPUT_LIMIT ==> pushed(out, level, s).subrange(
                pushed(out, level, s).len() - new.len(),
                pushed(out, level, s).len() as int,
            ) == new
        }),
{
    let new = filled(text::lines(s), level, text::lines(s).len() as int);
    let r = pushed(out, level, s);
    if new.len() <= OUTPUT_LIMIT {
        assert(r.subrange(r.len() - new.len(), r.len() as int) =~= new);
    }
}

// ---------------------------------------------------------------- the list of directories

/// The name of a directory: its label, else the last name of its path, else its path.
pub open spec fn label_of(dir: DirConfig) -> Seq<char> {
    if text::trim(dir.label@).len() > 0 {
        text::trim(dir.label@)
    } else {
        match path::file_name(dir.path@) {
            Some(name) => name,
            None => dir.path@,
        }
    }
}

/// A selection is given up once it lies behind the `n` directories of the list.
pub open spec fn selection_in(selected: Option<usize>, n: int) -> Option<usize> {
    match selected {
        Some(i) => if i >= n {
            None
        } else {
            Some(i)
        },
        None => None,
    }
}

fn kept_selection(selected: Option<usize>, n: usize) -> (r: Option<usize>)
    ensures
        r == selection_in(selected, n as int),
{
    match selected {
        Some(i) => if i >= n {
            None
        } else {
            Some(i)
        },
        None => None,
    }
}

impl SvnApp {
    /// The name of directory `index`.
    pub open spec fn label_at(self, index: int) -> Seq<char> {
        if 0 <= index < self.cfg.dirs@.len() {
            label_of(self.cfg.dirs@[index])
        } else {
            "#"@ + text::decimal(index)
        }
    }

    /// The path of directory `index`.
    pub fn dir_path(&self, index: usize) -> (r: Option<String>)
        ensures
            match r {
                Some(p) => index < self.cfg.dirs@.len() && p@ == self.cfg.dirs@[index as int].path@,
                None => index >= self.cfg.dirs@.len(),
            },
    {
        if index < self.cfg.dirs.len() {
            Some(self.cfg.dirs[index].path.clone())
        } else {
            None
        }
    }

    /// The name of directory `index`.
    pub fn dir_label(&self, index: usize) -> (r: String)
        ensures
            r@ == self.label_at(index as int),
    {
        if index < self.cfg.dirs.len() {
            let label = text::trimmed(self.cfg.dirs[index].label.as_str());
            if !label.as_str().is_empty() {
                return label;
            }
            match path::name_of(self.cfg.dirs[index].path.as_str()) {
                Some(name) => name,
                None => self.cfg.dirs[index].path.clone(),
            }
        } else {
            let n = text::count(index);
            text::join2("#", n.as_str())
        }
    }

    /// Brings what is known of the directories in line with the list.
    pub fn sync_views(&mut self)
        ensures
            final(self).dirs@.len() == old(self).cfg.dirs@.len(),
            forall|i: int|
                0 <= i < final(self).dirs@.len() ==> if i < old(self).dirs@.len() {
                    #[trigger] final(self).dirs@[i] == old(self).dirs@[i]
                } else {
                    final(self).dirs@[i].unknown()
                },
            final(self).list.selected == selection_in(
                old(self).list.selected,
                old(self).cfg.dirs@.len() as int,
            ),
            *final(self) == (SvnApp {
                dirs: final(self).dirs,
                list: Listing { selected: final(self).list.selected, ..old(self).list },
                ..*old(self)
            }),
    {
        let ghost first = *self;
        let n = self.cfg.dirs.len();
        while self.dirs.len() < n
            invariant
                n == first.cfg.dirs@.len(),
                self.dirs@.len() >= first.dirs@.len(),
                self.dirs@.len() <= n || self.dirs@.len() == first.dirs@.len(),
                *self == (SvnApp { dirs: self.dirs, ..first }),
                forall|i: int|
                    0 <= i < self.dirs@.len() ==> if i < first.dirs@.len() {
                        #[trigger] self.dirs@[i] == first.dirs@[i]
                    } else {
                        self.dirs@[i].unknown()
                    },
            decreases n - self.dirs@.len(),
        {
            self.dirs.push(DirView::default());
        }
        self.dirs.truncate(n);
        self.list.selected = kept_selection(self.list.selected, n);
    }

    /// The position that a move of `delta` leads to, if there is one.
    pub fn selected_target(&self, index: usize, delta: isize) -> (r: Option<usize>)
        ensures
            match r {
                Some(t) => t == index + delta && t < self.cfg.dirs@.len(),
                None => index + delta < 0 || index + delta >= self.cfg.dirs@.len(),
            },
    {
        let target: i128 = index as i128 + delta as i128;
        if target < 0 || target >= self.cfg.dirs.len() as i128 {
            None
        } else {
            Some(target as usize)
        }
    }
}

/// `s` with the elements at `a` and `b` exchanged.
pub open spec fn swapped<T>(s: Seq<T>, a: int, b: int) -> Seq<T> {
    s.update(a, s[b]).update(b, s[a])
}

/// A relocation dialog survives a change at the positions `a` and `b` only if it is about neither.
pub open spec fn kept_dialog(dialog: Option<Relocate>, a: usize, b: usize) -> Option<Relocate> {
    match dialog {
        Some(d) => if d.dir == a || d.dir == b {
            None
        } else {
            dialog
        },
        None => None,
    }
}

/// Exchanges the elements at `a` and `b`; `spare` takes their place in between.
fn exchange<T>(v: &mut Vec<T>, a: usize, b: usize, spare: T)
    requires
        a < old(v)@.len(),
        b < old(v)@.len(),
    ensures
        final(v)@ == swapped(old(v)@, a as int, b as int),
{
    let ghost first = v@;
    if a != b {
        let mut hand = spare;
        v.set_and_swap(a, &mut hand);
        v.set_and_swap(b, &mut hand);
        v.set_and_swap(a, &mut hand);
    }
    assert(v@ =~= swapped(first, a as int, b as int));
}

impl SvnApp {
    /// Moves a directory up or down the list, with what is known of it. Returns what to do next.
    pub fn move_directory(&mut self, index: usize, delta: isize) -> (r: Vec<Wish>)
        requires
            old(self).wf(),
            index < old(self).cfg.dirs@.len(),
        ensures
            final(self).wf(),
            r@ == saves(0 <= index + delta < old(self).cfg.dirs@.len(), true),
            if !(0 <= index + delta < old(self).cfg.dirs@.len()) {
                *final(self) == *old(self)
            } else {
                let to = index + delta;
                &&& final(self).cfg.dirs@ == swapped(old(self).cfg.dirs@, index as int, to)
                &&& final(self).dirs@ == swapped(old(self).dirs@, index as int, to)
                &&& *final(self) == (SvnApp {
                    cfg: Config { dirs: final(self).cfg.dirs, ..old(self).cfg },
                    dirs: final(self).dirs,
                    relocate: kept_dialog(old(self).relocate, index, to as usize),
                    list: Listing {
                        selected: Some(to as usize),
                        edit_label: None,
                        edit_filter: None,
                        ..old(self).list
                    },
                    ..*old(self)
                })
            },
    {
        let target = match self.selected_target(index, delta) {
            Some(t) => t,
            None => {
                return save_if(false, true);
            },
        };
        exchange(&mut self.cfg.dirs, index, target, DirConfig::default());
        exchange(&mut self.dirs, index, target, DirView::default());
        let drop_dialog = match &self.relocate {
            Some(d) => d.dir == index || d.dir == target,
            None => false,
        };
        if drop_dialog {
            self.relocate = None;
        }
        self.list.selected = Some(target);
        self.list.edit_label = None;
        self.list.edit_filter = None;
        save_if(true, true)
    }
}

/// A directory that is moved down and up again, or up and down, leaves the list as it was.
pub proof fn law_moves_undo<T>(s: Seq<T>, a: int, b: int)
    requires
        0 <= a < s.len(),
        0 <= b < s.len(),
    ensures
        swapped(swapped(s, a, b), b, a) == s,
{
    assert(swapped(swapped(s, a, b), b, a) =~= s);
}

// ---------------------------------------------------------------- adding and removing

/// `s` with every slash turned into a backslash.
pub open spec fn backslashed(s: Seq<char>) -> Seq<char> {
    Seq::new(
        s.len(),
        |i: int|
            if s[i] == '/' {
                '\\'
            } else {
                s[i]
            },
    )
}

fn with_backslashes(text: &str) -> (r: String)
    ensures
        r@ == backslashed(text@),
{
    let chars = text::chars_of(text);
    let mut out: Vec<char> = Vec::new();
    let mut i: usize = 0;
    while i < chars.len()
        invariant
            i <= chars.len(),
            chars@ == text@,
            out@ == backslashed(text@).take(i as int),
        decreases chars.len() - i,
    {
        let c = if chars[i] == '/' {
            '\\'
        } else {
            chars[i]
        };
        out.push(c);
        i += 1;
        assert(out@ =~= backslashed(text@).take(i as int));
    }
    assert(out@ =~= backslashed(text@));
    text::string_of(&out)
}

/// A typed path without the white space and the quotation marks around it.
pub open spec fn unquoted(raw: Seq<char>) -> Seq<char> {
    text::strip_start(text::strip_end(text::trim(raw), '"', '"'), '"', '"')
}

/// A typed path without the white space and the quotation marks around it.
pub fn typed_path(raw: &str) -> (r: String)
    ensures
        r@ == unquoted(raw@),
{
    let t = text::trimmed(raw);
    let e = text::stripped_end(t.as_str(), '"', '"');
    text::stripped_start(e.as_str(), '"', '"')
}

/// Two paths name the same directory: case and the kind of slash do not matter.
pub open spec fn same_place(a: Seq<char>, b: Seq<char>) -> bool {
    text::same_ascii(backslashed(a), backslashed(b))
}

/// A directory of the list lies at `place`.
pub open spec fn listed(dirs: Seq<DirConfig>, place: Seq<char>) -> bool {
    exists|i: int| 0 <= i < dirs.len() && same_place((#[trigger] dirs[i]).path@, place)
}

fn is_listed(dirs: &Vec<DirConfig>, place: &str) -> (r: bool)
    ensures
        r == listed(dirs@, place@),
{
    let want = with_backslashes(place);
    let mut i: usize = 0;
    while i < dirs.len()
        invariant
            i <= dirs.len(),
            want@ == backslashed(place@),
            forall|k: int| 0 <= k < i ==> !same_place((#[trigger] dirs@[k]).path@, place@),
        decreases dirs.len() - i,
    {
        let have = with_backslashes(dirs[i].path.as_str());
        if text::equal_ignoring_case(have.as_str(), want.as_str()) {
            assert(same_place(dirs@[i as int].path@, place@));
            return true;
        }
        i += 1;
    }
    false
}

/// A relocation dialog survives the removal of directory `index` only if it is about one before
/// it: the others have moved.
pub open spec fn earlier_dialog(dialog: Option<Relocate>, index: usize) -> Option<Relocate> {
    match dialog {
        Some(d) => if d.dir >= index {
            None
        } else {
            dialog
        },
        None => None,
    }
}

fn kept_earlier(dialog: Option<Relocate>, index: usize) -> (r: Option<Relocate>)
    ensures
        r == earlier_dialog(dialog, index),
{
    match dialog {
        Some(d) => if d.dir >= index {
            None
        } else {
            Some(d)
        },
        None => None,
    }
}

impl SvnApp {
    /// Adds the typed directory to the list. `is_dir` tells whether there is a directory of that
    /// name.
    pub fn add_directory(&mut self, raw: &str, is_dir: bool) -> (r: Vec<Wish>)
        requires
            old(self).wf(),
        ensures
            final(self).wf(),
            ({
                let place = unquoted(raw@);
                let n = old(self).cfg.dirs@.len() as int;
                if place.len() == 0 {
                    &&& r@.len() == 0
                    &&& final(self).hint@ == "请先输入目录路径，或点击「选择文件夹」"@
                    &&& *final(self) == (SvnApp { hint: final(self).hint, ..*old(self) })
                } else if !is_dir {
                    &&& r@.len() == 0
                    &&& final(self).hint@ == "目录不存在："@ + place
                    &&& *final(self) == (SvnApp { hint: final(self).hint, ..*old(self) })
                } else if listed(old(self).cfg.dirs@, place) {
                    &&& r@.len() == 0
                    &&& final(self).hint@ == "该目录已在列表中"@
                    &&& *final(self) == (SvnApp { hint: final(self).hint, ..*old(self) })
                } else {
                    &&& r@ == seq![
                        Wish::Save { told: false },
                        Wish::Refresh { dir: n as usize, quiet: false },
                    ]
                    &&& final(self).hint@ == "已添加目录："@ + place
                    &&& final(self).cfg.dirs@.len() == n + 1
                    &&& final(self).cfg.dirs@.take(n) == old(self).cfg.dirs@
                    &&& final(self).cfg.dirs@[n].path@ == place
                    &&& final(self).cfg.dirs@[n].label == old(self).list.new_label
                    &&& final(self).cfg.dirs@[n].bc_target@.len() == 0
                    &&& final(self).cfg.dirs@[n].bc_filter@.len() == 0
                    &&& final(self).dirs@.len() == n + 1
                    &&& final(self).dirs@.take(n) == old(self).dirs@
                    &&& final(self).dirs@[n].unknown()
                    &&& final(self).list.new_path@.len() == 0
                    &&& final(self).list.new_label@.len() == 0
                    &&& *final(self) == (SvnApp {
                        cfg: Config { dirs: final(self).cfg.dirs, ..old(self).cfg },
                        dirs: final(self).dirs,
                        list: Listing {
                            selected: Some(n as usize),
                            new_path: final(self).list.new_path,
                            new_label: final(self).list.new_label,
                            ..old(self).list
                        },
                        hint: final(self).hint,
                        ..*old(self)
                    })
                }
            }),
    {
        let place = typed_path(raw);
        let mut wishes: Vec<Wish> = Vec::new();
        if place.as_str().is_empty() {
            self.hint("请先输入目录路径，或点击「选择文件夹」");
            return wishes;
        }
        if !is_dir {
            let t = text::join2("目录不存在：", place.as_str());
            self.hint = t;
            return wishes;
        }
        if is_listed(&self.cfg.dirs, place.as_str()) {
            self.hint("该目录已在列表中");
            return wishes;
        }
        let t = text::join2("已添加目录：", place.as_str());
        let n = self.cfg.dirs.len();
        let label = self.list.new_label.clone();
        self.list.new_label = String::new();
        self.cfg.dirs.push(
            DirConfig { path: place, label, bc_target: String::new(), bc_filter: String::new() },
        );
        self.dirs.push(DirView::default());
        self.list.selected = Some(n);
        self.list.new_path = String::new();
        self.hint = t;
        wishes.push(Wish::Save { told: false });
        wishes.push(Wish::Refresh { dir: n, quiet: false });
        assert(wishes@ =~= seq![
            Wish::Save { told: false },
            Wish::Refresh { dir: n, quiet: false },
        ]);
        assert(self.cfg.dirs@.take(n as int) =~= old(self).cfg.dirs@);
        assert(self.dirs@.take(n as int) =~= old(self).dirs@);
        wishes
    }

    /// A page about directory `index` is open.
    pub open spec fn shows_dir(self, index: usize) -> bool {
        ||| self.commit matches Some(c) && c.dir == index
        ||| self.history matches Some(h) && h.dir == index
    }

    fn close_pages(&mut self, index: usize)
        ensures
            *final(self) == (if old(self).shows_dir(index) {
                SvnApp { commit: None, history: None, page: Page::Main, ..*old(self) }
            } else {
                *old(self)
            }),
    {
        let commits = match &self.commit {
            Some(c) => c.dir == index,
            None => false,
        };
        let looks_back = match &self.history {
            Some(h) => h.dir == index,
            None => false,
        };
        if commits || looks_back {
            self.commit = None;
            self.history = None;
            self.page = Page::Main;
        }
    }

    /// Takes a directory off the list; nothing on disk is touched. Returns what to do next.
    pub fn remove_directory(&mut self, index: usize) -> (r: Vec<Wish>)
        requires
            old(self).wf(),
        ensures
            final(self).wf(),
            r@ == saves(index < old(self).cfg.dirs@.len(), false),
            if index >= old(self).cfg.dirs@.len() {
                *final(self) == (SvnApp {
                    list: Listing { edit_label: None, edit_filter: None, ..old(self).list },
                    ..*old(self)
                })
            } else {
                let gone = old(self).cfg.dirs@[index as int];
                let left = old(self).cfg.dirs@.len() - 1;
                let closes = old(self).shows_dir(index);
                &&& final(self).cfg.dirs@ == old(self).cfg.dirs@.remove(index as int)
                &&& final(self).dirs@ == old(self).dirs@.remove(index as int)
                &&& final(self).hint@ == "已从列表移除："@ + gone.path@ + "（磁盘文件未删除）"@
                &&& *final(self) == (SvnApp {
                    cfg: Config { dirs: final(self).cfg.dirs, ..old(self).cfg },
                    dirs: final(self).dirs,
                    hint: final(self).hint,
                    relocate: earlier_dialog(old(self).relocate, index),
                    list: Listing {
                        selected: selection_in(old(self).list.selected, left),
                        edit_label: None,
                        edit_filter: None,
                        confirm_remove: None,
                        ..old(self).list
                    },
                    commit: if closes {
                        None
                    } else {
                        old(self).commit
                    },
                    history: if closes {
                        None
                    } else {
                        old(self).history
                    },
                    page: if closes {
                        Page::Main
                    } else {
                        old(self).page
                    },
                    ..*old(self)
                })
            },
    {
        self.list.edit_label = None;
        self.list.edit_filter = None;
        if index >= self.cfg.dirs.len() {
            return save_if(false, false);
        }
        let gone = self.cfg.dirs.remove(index);
        let _ = self.dirs.remove(index);
        self.relocate = kept_earlier(self.relocate.take(), index);
        self.list.selected = kept_selection(self.list.selected, self.cfg.dirs.len());
        self.list.confirm_remove = None;
        self.close_pages(index);
        let t = text::join3("已从列表移除：", gone.path.as_str(), "（磁盘文件未删除）");
        self.hint = t;
        save_if(true, false)
    }

    /// Uses another client. What is known of the old one is forgotten; the new one has to be asked
    /// for its version, and the settings have to be written.
    pub fn apply_svn_exe(&mut self, exe: &str) -> (r: Vec<Wish>)
        ensures
            r@ == seq![Wish::Version, Wish::Save { told: true }],
            final(self).cfg.svn_exe@ == unquoted(exe@),
            final(self).svn.exe@ == unquoted(exe@),
            final(self).login.svn_user@.len() == 0,
            *final(self) == (SvnApp {
                cfg: Config { svn_exe: final(self).cfg.svn_exe, ..old(self).cfg },
                svn: Svn { exe: final(self).svn.exe, ..old(self).svn },
                login: Login {
                    svn_user: final(self).login.svn_user,
                    user_probed: false,
                    ..old(self).login
                },
                ..*old(self)
            }),
    {
        let exe = typed_path(exe);
        self.svn.exe = exe.clone();
        self.cfg.svn_exe = exe;
        self.login.svn_user = String::new();
        self.login.user_probed = false;
        let mut wishes: Vec<Wish> = Vec::new();
        wishes.push(Wish::Version);
        wishes.push(Wish::Save { told: true });
        assert(wishes@ =~= seq![Wish::Version, Wish::Save { told: true }]);
        wishes
    }

    /// The client, where it can be run; otherwise the settings open, with a word of why.
    pub fn svn_or_none(&mut self, is_file: bool) -> (r: Option<Svn>)
        ensures
            match r {
                Some(svn) => old(self).usable(is_file) && svn == old(self).svn && *final(self)
                    == *old(self),
                None => !old(self).usable(is_file) && final(self).asks_for_client(*old(self)),
            },
    {
        if self.svn.available(is_file) {
            Some(self.svn.clone())
        } else {
            self.hint("未找到可用的 svn.exe，请在「设置」中指定路径或重新自动寻找");
            self.show_settings = true;
            None
        }
    }

    /// The client can be run. `is_file` tells whether there is a file of its name.
    pub open spec fn usable(self, is_file: bool) -> bool {
        self.svn.exe@.len() > 0 && is_file
    }

    /// The state `before`, with a word that no client was found.
    pub open spec fn asks_for_client(self, before: SvnApp) -> bool {
        &&& self.hint@ == "未找到可用的 svn.exe，请在「设置」中指定路径或重新自动寻找"@
        &&& self == (SvnApp { hint: self.hint, show_settings: true, ..before })
    }
}

/// A directory that was added last and is removed again leaves the list as it was.
pub proof fn law_added_directory_can_be_removed(before: Seq<DirConfig>, after: Seq<DirConfig>)
    requires
        after.len() == before.len() + 1,
        after.take(before.len() as int) == before,
    ensures
        after.remove(before.len() as int) == before,
{
    assert(after.remove(before.len() as int) =~= after.take(before.len() as int));
}

/// No directory is listed twice: a place that is in the list is not added again.
pub proof fn law_no_place_is_listed_twice(
    before: Seq<DirConfig>,
    after: Seq<DirConfig>,
    place: Seq<char>,
    i: int,
)
    requires
        after.len() == before.len() + 1,
        after.take(before.len() as int) == before,
        after[before.len() as int].path@ == place,
        !listed(before, place),
        0 <= i < before.len(),
    ensures
        !same_place(after[i].path@, after[before.len() as int].path@),
{
    assert(before[i] == after.take(before.len() as int)[i]);
}

/// A move exchanges two elements and leaves all others where they are.
pub proof fn law_moves_exchange_two<T>(s: Seq<T>, a: int, b: int, i: int)
    requires
        0 <= a < s.len(),
        0 <= b < s.len(),
        0 <= i < s.len(),
    ensures
        swapped(s, a, b).len() == s.len(),
        swapped(s, a, b)[a] == s[b],
        swapped(s, a, b)[b] == s[a],
        i != a && i != b ==> swapped(s, a, b)[i] == s[i],
{
}

/// A relocation dialog stays open through a move of other directories, and through a removal of one
/// behind its own; it is closed in every other case.
pub proof fn law_dialogs_keep_their_directory(d: Relocate, a: usize, b: usize, index: usize)
    ensures
        kept_dialog(Some(d), a, b) == Some(d) <==> d.dir != a && d.dir != b,
        kept_dialog(Some(d), a, b) is None <==> d.dir == a || d.dir == b,
        earlier_dialog(Some(d), index) == Some(d) <==> d.dir < index,
        earlier_dialog(Some(d), index) is None <==> d.dir >= index,
        kept_dialog(None, a, b) is None && earlier_dialog(None, index) is None,
{
}

/// A selection stays while the list reaches it.
pub proof fn law_selections_lie_in_the_list(i: usize, n: int)
    ensures
        selection_in(Some(i), n) == Some(i) <==> i < n,
        selection_in(Some(i), n) is None <==> i >= n,
        selection_in(None, n) is None,
{
}

/// A path may be typed with white space and quotation marks around it.
pub proof fn law_typed_paths_lose_their_marks(path: Seq<char>)
    requires
        path.len() > 0,
        !text::is_space(path[0]) && path[0] != '"',
        !text::is_space(path.last()) && path.last() != '"',
    ensures
        unquoted(path) == path,
        unquoted(seq![' '] + path + seq![' ']) == path,
        unquoted(seq!['"'] + path + seq!['"']) == path,
{
    let p = seq![' '] + path + seq![' '];
    let q = seq!['"'] + path + seq!['"'];
    let half = path + seq![' '];
    assert(text::trim_start(path) == path && text::trim_end(path) == path);
    assert(p.subrange(1, p.len() as int) =~= half);
    assert(half[0] == path[0]);
    assert(text::trim_start(half) == half);
    assert(text::trim_start(p) == half);
    assert(half.last() == ' ');
    assert(half.subrange(0, half.len() - 1) =~= path);
    assert(text::trim_end(half) == path);
    assert(text::strip_end(path, '"', '"') == path && text::strip_start(path, '"', '"') == path);
    assert(q[0] == '"' && q.last() == '"');
    assert(text::trim_start(q) == q && text::trim_end(q) == q);
    let open = seq!['"'] + path;
    assert(q.subrange(0, q.len() - 1) =~= open);
    assert(open.last() == path.last());
    assert(text::strip_end(open, '"', '"') == open);
    assert(text::strip_end(q, '"', '"') == open);
    assert(open.subrange(1, open.len() as int) =~= path);
    assert(text::strip_start(open, '"', '"') == path);
}

/// Two paths name the same place where they are equally long and have, character by character, the
/// same ASCII letter, a slash of either kind, or the same character.
pub proof fn law_places_are_told_by_their_characters(a: Seq<char>, b: Seq<char>)
    ensures
        same_place(a, b) <==> a.len() == b.len() && forall|i: int|
            0 <= i < a.len() ==> {
                ||| text::ascii_lower(#[trigger] a[i]) == text::ascii_lower(b[i])
                ||| (a[i] == '/' || a[i] == '\\') && (b[i] == '/' || b[i] == '\\')
            },
        same_place(a, a),
        same_place(a, b) == same_place(b, a),
{
    let x = backslashed(a);
    let y = backslashed(b);
    if same_place(a, b) {
        assert forall|i: int| 0 <= i < a.len() implies {
            ||| text::ascii_lower(#[trigger] a[i]) == text::ascii_lower(b[i])
            ||| (a[i] == '/' || a[i] == '\\') && (b[i] == '/' || b[i] == '\\')
        } by {
            lemma_lower_slash(a[i]);
            lemma_lower_slash(b[i]);
            assert(text::ascii_lower(x[i]) == text::ascii_lower(y[i]));
        }
        assert forall|i: int| 0 <= i < y.len() implies text::ascii_lower(#[trigger] y[i])
            == text::ascii_lower(x[i]) by {
            assert(text::ascii_lower(x[i]) == text::ascii_lower(y[i]));
        }
    }
    if same_place(b, a) {
        assert forall|i: int| 0 <= i < x.len() implies text::ascii_lower(#[trigger] x[i])
            == text::ascii_lower(y[i]) by {
            assert(text::ascii_lower(y[i]) == text::ascii_lower(x[i]));
        }
    }
    if a.len() == b.len() && forall|i: int|
        0 <= i < a.len() ==> {
            ||| text::ascii_lower(#[trigger] a[i]) == text::ascii_lower(b[i])
            ||| (a[i] == '/' || a[i] == '\\') && (b[i] == '/' || b[i] == '\\')
        } {
        assert forall|i: int| 0 <= i < x.len() implies text::ascii_lower(#[trigger] x[i])
            == text::ascii_lower(y[i]) by {
            lemma_lower_slash(a[i]);
            lemma_lower_slash(b[i]);
            assert(a[i] == a[i]);
        }
    }
}

proof fn lemma_lower_slash(c: char)
    ensures
        text::ascii_lower(c) == '/' <==> c == '/',
        text::ascii_lower(c) == '\\' <==> c == '\\',
{
    if 'A' <= c <= 'Z' {
        assert(text::ascii_lower(c) as int == c as int + 32);
    }
}

/// A directory goes by its alias, without white space around it; without an alias by the last name
/// of its path, or by all of it where it has none.
pub proof fn law_labels_of_directories(dir: DirConfig, k: int)
    ensures
        0 <= k < dir.label@.len() && !text::is_space(dir.label@[k]) ==> label_of(dir) == text::trim(
            dir.label@,
        ),
        (forall|j: int| 0 <= j < dir.label@.len() ==> text::is_space(#[trigger] dir.label@[j]))
            ==> label_of(dir) == match path::file_name(dir.path@) {
            Some(name) => name,
            None => dir.path@,
        },
{
    let a = text::law_trimming_cuts_white_space(dir.label@);
    if 0 <= k < dir.label@.len() && !text::is_space(dir.label@[k]) {
        assert(a.0 <= k < a.1);
    }
    if forall|j: int| 0 <= j < dir.label@.len() ==> text::is_space(#[trigger] dir.label@[j]) {
        if a.0 < a.1 {
            assert(text::is_space(dir.label@[a.0]));
        }
    }
}

/// The output takes a text line by line, leaves blank lines out and keeps the newest lines, in order.
pub proof fn law_output_takes_filled_lines(lines: Seq<Seq<char>>, level: Level, n: int)
    requires
        0 <= n <= lines.len(),
    ensures
        filled(lines, level, n) == lines.take(n).filter(
            |line: Seq<char>| text::trim(line).len() > 0,
        ).map_values(|line: Seq<char>| OutView { level, text: line }),
    decreases n,
{
    reveal(Seq::filter);
    let keep = |line: Seq<char>| text::trim(line).len() > 0;
    let show = |line: Seq<char>| OutView { level, text: line };
    if n == 0 {
        assert(lines.take(0).filter(keep).map_values(show) =~= Seq::empty());
    } else {
        law_output_takes_filled_lines(lines, level, n - 1);
        assert(lines.take(n).drop_last() =~= lines.take(n - 1));
        assert(lines.take(n).last() == lines[n - 1]);
        let before = lines.take(n - 1).filter(keep);
        assert(before.push(lines[n - 1]).map_values(show) =~= before.map_values(show).push(
            show(lines[n - 1]),
        ));
    }
}

} // verus!
