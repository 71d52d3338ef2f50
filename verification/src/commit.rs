//! The commit page: what is picked, what a commit takes along, when it has to be confirmed, and
//! the steps of a commit from `svn add` to the update behind it.

use vstd::prelude::*;
use crate::model::Maintain;
use crate::svn::{blocked_among, blocked_count, status_views, Item, StatusEntry, StatusView};
use crate::text;
use crate::windows::{is_xml, names_xml};

verus! {

/// The state of the commit page.
#[derive(Debug)]
pub struct CommitPage {
    pub dir: usize,
    pub label: String,
    pub entries: Vec<StatusEntry>,
    pub message: String,
    pub error: String,
    pub done_ok: bool,
    pub filter: String,
    /// The item whose differences are shown; `usize::MAX` for none.
    pub picked: usize,
    pub diff: String,
    /// The differences leave white space and line ends out.
    pub diff_ignore: bool,
    pub confirm_revert: bool,
    /// The next press commits although the working copy is not up to date.
    pub confirm_outdated: bool,
}

// ---------------------------------------------------------------- what is picked

/// A choice among the items of a working copy.
#[derive(Clone, Copy, Debug, PartialEq, Eq, Structural)]
pub enum Pick {
    /// What is checked and can be committed, at most after an `svn add` or `svn delete`.
    Checked,
    /// What is checked and needs an `svn add` first.
    CheckedNew,
    /// What is checked and needs an `svn delete` first.
    CheckedMissing,
    /// What can be committed, checked or not.
    Any,
    /// What needs an `svn add` first, checked or not.
    AnyNew,
    /// What needs an `svn delete` first, checked or not.
    AnyMissing,
    Nothing,
}

impl Pick {
    /// The choice takes `e`.
    pub open spec fn takes(self, e: StatusView) -> bool {
        match self {
            Pick::Checked => e.checked && e.item.uploads(),
            Pick::CheckedNew => e.checked && e.item is Unversioned,
            Pick::CheckedMissing => e.checked && e.item is Missing,
            Pick::Any => e.item.uploads(),
            Pick::AnyNew => e.item is Unversioned,
            Pick::AnyMissing => e.item is Missing,
            Pick::Nothing => false,
        }
    }

    fn wants(self, e: &StatusEntry) -> (r: bool)
        ensures
            r == self.takes(e@),
    {
        match self {
            Pick::Checked => e.checked && e.item.uploadable(),
            Pick::CheckedNew => e.checked && e.item.needs_add(),
            Pick::CheckedMissing => e.checked && e.item.needs_delete(),
            Pick::Any => e.item.uploadable(),
            Pick::AnyNew => e.item.needs_add(),
            Pick::AnyMissing => e.item.needs_delete(),
            Pick::Nothing => false,
        }
    }
}

/// The paths of those of the first `n` items that a choice takes, in order.
pub open spec fn paths_picked(entries: Seq<StatusView>, pick: Pick, n: int) -> Seq<Seq<char>>
    decreases n,
{
    if n <= 0 {
        Seq::empty()
    } else if pick.takes(entries[n - 1]) {
        paths_picked(entries, pick, n - 1).push(entries[n - 1].path)
    } else {
        paths_picked(entries, pick, n - 1)
    }
}

/// The paths of the items that a choice takes, in order.
pub open spec fn picked(entries: Seq<StatusView>, pick: Pick) -> Seq<Seq<char>> {
    paths_picked(entries, pick, entries.len() as int)
}

pub(crate) fn collect(entries: &Vec<StatusEntry>, pick: Pick) -> (r: Vec<String>)
    ensures
        text::views(r@) == picked(status_views(entries@), pick),
{
    let ghost sv = status_views(entries@);
    let mut out: Vec<String> = Vec::new();
    let mut i: usize = 0;
    assert(text::views(out@) =~= Seq::empty());
    while i < entries.len()
        invariant
            i <= entries.len(),
            sv == status_views(entries@),
            text::views(out@) == paths_picked(sv, pick, i as int),
        decreases entries.len() - i,
    {
        assert(sv[i as int] == entries@[i as int]@);
        if pick.wants(&entries[i]) {
            let ghost before = out@;
            out.push(entries[i].path.clone());
            assert(text::views(out@) =~= text::views(before).push(sv[i as int].path));
        }
        i += 1;
    }
    out
}

/// What a piece of upkeep takes of the checked items.
pub open spec fn staged_by(op: Maintain) -> Pick {
    match op {
        Maintain::Add => Pick::CheckedNew,
        Maintain::Delete => Pick::CheckedMissing,
        _ => Pick::Nothing,
    }
}

/// The kinds of change that the page counts.
#[derive(Clone, Copy, Debug, PartialEq, Eq, Structural)]
pub enum Group {
    New,
    Changed,
    Gone,
}

/// The kind of change that an item counts as. What waits for an `svn add` counts as new, what
/// waits for an `svn delete` as gone.
pub open spec fn group_of(item: Item) -> Option<Group> {
    match item {
        Item::Added => Some(Group::New),
        Item::Unversioned => Some(Group::New),
        Item::Modified => Some(Group::Changed),
        Item::Replaced => Some(Group::Changed),
        Item::Deleted => Some(Group::Gone),
        Item::Missing => Some(Group::Gone),
        _ => None,
    }
}

/// How many of the first `n` items count as `group`.
pub open spec fn count_in(entries: Seq<StatusView>, group: Group, n: int) -> int
    decreases n,
{
    if n <= 0 {
        0
    } else {
        count_in(entries, group, n - 1) + if group_of(entries[n - 1].item) == Some(group) {
            1int
        } else {
            0
        }
    }
}

/// How many items count as new, changed and gone.
pub(crate) fn count_groups(entries: &Vec<StatusEntry>) -> (r: (usize, usize, usize))
    ensures
        ({
            let sv = status_views(entries@);
            &&& r.0 == count_in(sv, Group::New, sv.len() as int)
            &&& r.1 == count_in(sv, Group::Changed, sv.len() as int)
            &&& r.2 == count_in(sv, Group::Gone, sv.len() as int)
        }),
{
    let ghost sv = status_views(entries@);
    let mut added: usize = 0;
    let mut modified: usize = 0;
    let mut deleted: usize = 0;
    let mut i: usize = 0;
    while i < entries.len()
        invariant
            i <= entries.len(),
            sv == status_views(entries@),
            added == count_in(sv, Group::New, i as int),
            modified == count_in(sv, Group::Changed, i as int),
            deleted == count_in(sv, Group::Gone, i as int),
            added <= i && modified <= i && deleted <= i,
        decreases entries.len() - i,
    {
        assert(sv[i as int].item == entries@[i as int].item);
        match entries[i].item {
            Item::Added => {
                added += 1;
            },
            Item::Unversioned => {
                added += 1;
            },
            Item::Modified => {
                modified += 1;
            },
            Item::Replaced => {
                modified += 1;
            },
            Item::Deleted => {
                deleted += 1;
            },
            Item::Missing => {
                deleted += 1;
            },
            _ => {},
        }
        i += 1;
    }
    (added, modified, deleted)
}

/// An item passes a filter, all texts in small letters.
pub open spec fn passes(filter: Seq<char>, name: Seq<char>, path: Seq<char>) -> bool {
    filter.len() == 0 || text::occurs(name, filter) || text::occurs(path, filter)
}

/// The positions of those of the first `n` items that pass a filter, all texts in small letters.
pub open spec fn passing(
    filter: Seq<char>,
    names: Seq<Seq<char>>,
    paths: Seq<Seq<char>>,
    n: int,
) -> Seq<usize>
    decreases n,
{
    if n <= 0 {
        Seq::empty()
    } else if passes(filter, names[n - 1], paths[n - 1]) {
        passing(filter, names, paths, n - 1).push((n - 1) as usize)
    } else {
        passing(filter, names, paths, n - 1)
    }
}

/// The positions of the items that pass a filter, all texts given in small letters.
pub fn matching(filter: &str, names: &Vec<String>, paths: &Vec<String>) -> (r: Vec<usize>)
    requires
        names@.len() == paths@.len(),
    ensures
        r@ == passing(filter@, text::views(names@), text::views(paths@), names@.len() as int),
        forall|j: int| 0 <= j < r@.len() ==> #[trigger] r@[j] < names@.len(),
{
    let mut out: Vec<usize> = Vec::new();
    let mut i: usize = 0;
    while i < names.len()
        invariant
            i <= names.len(),
            names@.len() == paths@.len(),
            out@ == passing(filter@, text::views(names@), text::views(paths@), i as int),
            forall|j: int| 0 <= j < out@.len() ==> #[trigger] out@[j] < i,
        decreases names.len() - i,
    {
        if filter.is_empty() || text::contains(names[i].as_str(), filter) || text::contains(
            paths[i].as_str(),
            filter,
        ) {
            out.push(i);
        }
        i += 1;
    }
    out
}

/// The names of the items in small letters.
pub open spec fn small_names(entries: Seq<StatusView>) -> Seq<Seq<char>> {
    Seq::new(entries.len(), |i: int| text::lowercase(entries[i].name))
}

/// The paths of the items in small letters.
pub open spec fn small_paths(entries: Seq<StatusView>) -> Seq<Seq<char>> {
    Seq::new(entries.len(), |i: int| text::lowercase(entries[i].path))
}

impl CommitPage {
    /// The page about directory `dir`, as it opens.
    pub open spec fn opens(self, dir: usize, label: Seq<char>) -> bool {
        &&& self.dir == dir
        &&& self.label@ == label
        &&& self.entries@.len() == 0
        &&& self.message@.len() == 0
        &&& self.error@.len() == 0
        &&& !self.done_ok
        &&& self.filter@.len() == 0
        &&& self.picked == usize::MAX
        &&& self.diff@.len() == 0
        &&& !self.diff_ignore && !self.confirm_revert && !self.confirm_outdated
    }

    /// The page as it opens.
    pub fn new(dir: usize, label: String) -> (r: CommitPage)
        ensures
            r.opens(dir, label@),
    {
        CommitPage {
            dir,
            label,
            entries: Vec::new(),
            message: String::new(),
            error: String::new(),
            done_ok: false,
            filter: String::new(),
            picked: usize::MAX,
            diff: String::new(),
            diff_ignore: false,
            confirm_revert: false,
            confirm_outdated: false,
        }
    }

    /// Takes in a list that was read. A confirmation that was given for the old list is void.
    pub fn set_entries(&mut self, entries: Vec<StatusEntry>)
        ensures
            final(self).entries == entries,
            final(self).diff@.len() == 0,
            final(self).error@.len() == 0,
            *final(self) == (CommitPage {
                entries,
                picked: usize::MAX,
                diff: final(self).diff,
                error: final(self).error,
                confirm_outdated: false,
                ..*old(self)
            }),
    {
        self.entries = entries;
        self.picked = usize::MAX;
        self.diff = String::new();
        self.error = String::new();
        self.confirm_outdated = false;
    }

    /// The paths to commit. What waits for an `svn add` or `svn delete` is among them; conflicts
    /// and incomplete items never are.
    pub fn commit_targets(&self) -> (r: Vec<String>)
        ensures
            text::views(r@) == picked(status_views(self.entries@), Pick::Checked),
    {
        collect(&self.entries, Pick::Checked)
    }

    /// The checked paths that a piece of upkeep is for.
    pub fn selected_targets(&self, op: Maintain) -> (r: Vec<String>)
        ensures
            text::views(r@) == picked(status_views(self.entries@), staged_by(op)),
    {
        let pick = match op {
            Maintain::Add => Pick::CheckedNew,
            Maintain::Delete => Pick::CheckedMissing,
            _ => Pick::Nothing,
        };
        collect(&self.entries, pick)
    }

    /// How many items are new, changed, gone, and wait for somebody to look at them.
    pub fn counts(&self) -> (r: (usize, usize, usize, usize))
        ensures
            ({
                let sv = status_views(self.entries@);
                &&& r.0 == count_in(sv, Group::New, sv.len() as int)
                &&& r.1 == count_in(sv, Group::Changed, sv.len() as int)
                &&& r.2 == count_in(sv, Group::Gone, sv.len() as int)
                &&& r.3 == blocked_among(sv)
            }),
    {
        let (added, modified, deleted) = count_groups(&self.entries);
        (added, modified, deleted, blocked_count(self.entries.as_slice()))
    }

    /// The positions of the items that pass the filter, without regard to case.
    pub fn visible(&self) -> (r: Vec<usize>)
        ensures
            r@ == passing(
                text::lowercase(text::trim(self.filter@)),
                small_names(status_views(self.entries@)),
                small_paths(status_views(self.entries@)),
                self.entries@.len() as int,
            ),
            forall|j: int| 0 <= j < r@.len() ==> #[trigger] r@[j] < self.entries@.len(),
    {
        let trimmed = text::trimmed(self.filter.as_str());
        let filter = text::lowered(trimmed.as_str());
        let ghost sv = status_views(self.entries@);
        let mut names: Vec<String> = Vec::new();
        let mut paths: Vec<String> = Vec::new();
        let mut i: usize = 0;
        while i < self.entries.len()
            invariant
                i <= self.entries.len(),
                sv == status_views(self.entries@),
                names@.len() == i,
                paths@.len() == i,
                forall|j: int| 0 <= j < i ==> (#[trigger] names@[j])@ == text::lowercase(sv[j].name),
                forall|j: int| 0 <= j < i ==> (#[trigger] paths@[j])@ == text::lowercase(sv[j].path),
            decreases self.entries.len() - i,
        {
            names.push(text::lowered(self.entries[i].name.as_str()));
            paths.push(text::lowered(self.entries[i].path.as_str()));
            i += 1;
        }
        assert(text::views(names@) =~= small_names(sv));
        assert(text::views(paths@) =~= small_paths(sv));
        matching(filter.as_str(), &names, &paths)
    }

    /// Checks all items, or none.
    pub fn check_all(&mut self, checked: bool)
        ensures
            final(self).entries@.len() == old(self).entries@.len(),
            forall|i: int|
                0 <= i < old(self).entries@.len() ==> (#[trigger] final(self).entries@[i]) == (
                StatusEntry { checked, ..old(self).entries@[i] }),
            *final(self) == (CommitPage { entries: final(self).entries, ..*old(self) }),
    {
        let ghost start = *self;
        let mut i: usize = 0;
        while i < self.entries.len()
            invariant
                i <= self.entries.len(),
                self.entries@.len() == start.entries@.len(),
                *self == (CommitPage { entries: self.entries, ..start }),
                forall|j: int|
                    0 <= j < i ==> (#[trigger] self.entries@[j]) == (StatusEntry {
                        checked,
                        ..start.entries@[j]
                    }),
                forall|j: int|
                    i <= j < start.entries@.len() ==> (#[trigger] self.entries@[j])
                        == start.entries@[j],
            decreases self.entries.len() - i,
        {
            self.entries[i].checked = checked;
            i += 1;
        }
    }

    /// Checks what an upload takes along, and nothing else.
    pub fn check_uploadable(&mut self)
        ensures
            final(self).entries@.len() == old(self).entries@.len(),
            forall|i: int|
                0 <= i < old(self).entries@.len() ==> (#[trigger] final(self).entries@[i]) == (
                StatusEntry {
                    checked: old(self).entries@[i].item.uploads(),
                    ..old(self).entries@[i]
                }),
            *final(self) == (CommitPage { entries: final(self).entries, ..*old(self) }),
    {
        let ghost start = *self;
        let mut i: usize = 0;
        while i < self.entries.len()
            invariant
                i <= self.entries.len(),
                self.entries@.len() == start.entries@.len(),
                *self == (CommitPage { entries: self.entries, ..start }),
                forall|j: int|
                    0 <= j < i ==> (#[trigger] self.entries@[j]) == (StatusEntry {
                        checked: start.entries@[j].item.uploads(),
                        ..start.entries@[j]
                    }),
                forall|j: int|
                    i <= j < start.entries@.len() ==> (#[trigger] self.entries@[j])
                        == start.entries@[j],
            decreases self.entries.len() - i,
        {
            let item = self.entries[i].item;
            self.entries[i].checked = item.uploadable();
            i += 1;
        }
    }
}

// ---------------------------------------------------------------- what the page says

/// The path `full` below `root`; all of it where it does not lie below.
pub open spec fn below_root(full: Seq<char>, root: Seq<char>) -> Seq<char> {
    let prefix = text::strip_end(root, '\\', '/').push('\\');
    if text::begins(full, prefix) && full.len() > prefix.len() {
        text::after(full, prefix.len() as int)
    } else {
        full
    }
}

/// The path `full` below `root`, as the list shows it.
pub fn relative_to_root(full: &str, root: &str) -> (r: String)
    ensures
        r@ == below_root(full@, root@),
{
    let mut prefix = text::stripped_end(root, '\\', '/');
    prefix.push('\\');
    match text::without_prefix(full, prefix.as_str()) {
        Some(rest) => if rest.as_str().is_empty() {
            full.to_owned()
        } else {
            rest
        },
        None => full.to_owned(),
    }
}

/// The warning that the server has newer versions; none where that is not known or not so.
pub open spec fn outdated_note(out_of_date: Option<usize>, remote_rev: Seq<char>) -> Option<
    Seq<char>,
> {
    match out_of_date {
        Some(pending) => if pending > 0 {
            Some(
                "未更新到最新版本"@ + if remote_rev.len() == 0 {
                    Seq::empty()
                } else {
                    "，远端已是 r"@ + remote_rev
                } + "：服务器还有 "@ + text::decimal(pending as int) + " 项改动没拉到本地"@,
            )
        } else {
            None
        },
        None => None,
    }
}

/// The warning that the server has newer versions. Where that is not known, nothing is said.
pub fn outdated_hint(out_of_date: Option<usize>, remote_rev: &str) -> (r: Option<String>)
    ensures
        match r {
            Some(t) => outdated_note(out_of_date, remote_rev@) == Some(t@),
            None => outdated_note(out_of_date, remote_rev@) is None,
        },
{
    match out_of_date {
        Some(pending) => {
            if pending == 0 {
                return None;
            }
            let mut t = "未更新到最新版本".to_owned();
            if !remote_rev.is_empty() {
                let rev = text::join2("，远端已是 r", remote_rev);
                t.append(rev.as_str());
            }
            let n = text::count(pending);
            t.append("：服务器还有 ");
            t.append(n.as_str());
            t.append(" 项改动没拉到本地");
            assert(outdated_note(out_of_date, remote_rev@)->0 =~= t@);
            Some(t)
        },
        None => None,
    }
}

/// Why nothing can be committed now.
pub open spec fn commit_block(writing: bool, targets: int) -> Option<Seq<char>> {
    if writing {
        Some("该目录有 SVN 写操作正在执行，请稍候"@)
    } else if targets == 0 {
        Some("未勾选要提交的文件"@)
    } else {
        None
    }
}

/// Why nothing can be committed now.
pub fn why_blocked(writing: bool, targets: usize) -> (r: Option<&'static str>)
    ensures
        match r {
            Some(t) => commit_block(writing, targets as int) == Some(t@),
            None => commit_block(writing, targets as int) is None,
        },
{
    if writing {
        Some("该目录有 SVN 写操作正在执行，请稍候")
    } else if targets == 0 {
        Some("未勾选要提交的文件")
    } else {
        None
    }
}

/// What a press of the commit button comes to.
#[derive(Debug)]
pub enum Press {
    /// Nothing can be committed; the text says why.
    Refused(String),
    /// The press has to be repeated; the text says what is at stake.
    Armed(String),
    /// The commit begins. The warning goes to the output, the hint to the status line.
    Begin { warning: Option<String>, hint: String },
}

/// What is said of the items that an `svn add` or `svn delete` precedes.
pub open spec fn staging_text(adds: int, deletes: int) -> Seq<char> {
    if adds == 0 && deletes == 0 {
        Seq::empty()
    } else {
        "，先 add "@ + text::decimal(adds) + " 项、delete "@ + text::decimal(deletes) + " 项"@
    }
}

/// What a press of the commit button comes to, and whether the page then waits for another.
pub open spec fn press_of(
    writing: bool,
    targets: int,
    adds: int,
    deletes: int,
    outdated: Option<Seq<char>>,
    confirmed: bool,
    press: Press,
    waits: bool,
) -> bool {
    match commit_block(writing, targets) {
        Some(why) => waits == confirmed && (press matches Press::Refused(t) && t@ == why),
        None => match outdated {
            Some(note) => if !confirmed {
                waits && (press matches Press::Armed(t) && t@ == note
                    + "——再点一次「仍要提交」才会按本地版本上传，或点上面的提示条先更新到最新"@)
            } else {
                !waits && (press matches Press::Begin { warning: Some(w), hint } && w@ == note
                    + "，建议先「↓ 更新」再上传"@ && hint@ == note + "；仍按本地当前版本提交 "@
                    + text::decimal(targets) + " 项 …"@)
            },
            None => !waits && (press matches Press::Begin { warning: None, hint } && hint@
                == "正在提交 "@ + text::decimal(targets) + " 项"@ + staging_text(adds, deletes)
                + " …"@),
        },
    }
}

/// The label of the commit button.
pub open spec fn caption_of(targets: int, armed: bool) -> Seq<char> {
    if armed {
        "仍要提交 "@ + text::decimal(targets) + " 项？"@
    } else {
        "提交 "@ + text::decimal(targets) + " 项"@
    }
}

/// The label of the commit button.
pub fn caption(targets: usize, armed: bool) -> (r: String)
    ensures
        r@ == caption_of(targets as int, armed),
{
    let n = text::count(targets);
    if armed {
        text::join3("仍要提交 ", n.as_str(), " 项？")
    } else {
        text::join3("提交 ", n.as_str(), " 项")
    }
}

/// The colours of the commit button and of its label.
pub fn button_colors(dark: bool, armed: bool, ready: bool) -> (r: (
    (u8, u8, u8),
    (u8, u8, u8),
))
    ensures
        r == (if armed && ready {
            ((150u8, 60u8, 60u8), (255u8, 240u8, 240u8))
        } else if dark && ready {
            ((38u8, 112u8, 70u8), (228u8, 245u8, 235u8))
        } else if dark {
            ((70u8, 70u8, 70u8), (148u8, 148u8, 148u8))
        } else if ready {
            ((23u8, 102u8, 61u8), (255u8, 255u8, 255u8))
        } else {
            ((214u8, 214u8, 214u8), (120u8, 120u8, 120u8))
        }),
{
    if armed && ready {
        ((150, 60, 60), (255, 240, 240))
    } else if dark {
        if ready {
            ((38, 112, 70), (228, 245, 235))
        } else {
            ((70, 70, 70), (148, 148, 148))
        }
    } else if ready {
        ((23, 102, 61), (255, 255, 255))
    } else {
        ((214, 214, 214), (120, 120, 120))
    }
}

/// What is said beside the button of the items that an `svn add` or `svn delete` precedes.
pub fn staging_label(adds: usize, deletes: usize) -> (r: Option<String>)
    ensures
        match r {
            Some(t) => (adds > 0 || deletes > 0) && t@ == "自动 add "@ + text::decimal(adds as int)
                + " 项 · delete "@ + text::decimal(deletes as int) + " 项"@,
            None => adds == 0 && deletes == 0,
        },
{
    if adds == 0 && deletes == 0 {
        return None;
    }
    let a = text::count(adds);
    let d = text::count(deletes);
    let mut t = text::join3("自动 add ", a.as_str(), " 项 · delete ");
    t.append(d.as_str());
    t.append(" 项");
    Some(t)
}

/// The differences of an item that no revision knows.
pub open spec fn no_base() -> Seq<char> {
    "该条目尚未加入版本控制，没有差异可比对。"@
}

/// What the page shows of the differences that were read. `ignored` tells whether white space was
/// left out.
pub open spec fn diff_shown(ok: bool, message: Seq<char>, ignored: bool) -> Seq<char> {
    if text::trim(message).len() > 0 {
        message
    } else if !ok {
        "无法取得差异（svn diff 执行失败）"@
    } else if ignored {
        "忽略空白与换行后没有内容改动：这一项只是缩进、空格或换行符（CRLF↔LF）变了。\n取消勾选「忽略空白与换行」就能看到整份文件被逐行替换。"@
    } else {
        "没有差异：该文件内容与 BASE 版本一致。"@
    }
}

/// What the page shows of the differences that were read.
pub fn shown_diff(ok: bool, message: &str, ignored: bool) -> (r: String)
    ensures
        r@ == diff_shown(ok, message@, ignored),
{
    if !text::blank(message) {
        return message.to_owned();
    }
    if !ok {
        "无法取得差异（svn diff 执行失败）".to_owned()
    } else if ignored {
        "忽略空白与换行后没有内容改动：这一项只是缩进、空格或换行符（CRLF↔LF）变了。\n取消勾选「忽略空白与换行」就能看到整份文件被逐行替换。".to_owned()
    } else {
        "没有差异：该文件内容与 BASE 版本一致。".to_owned()
    }
}

impl CommitPage {
    /// Whether the button asks for a second press.
    pub fn armed(&self, outdated: &Option<String>) -> (r: bool)
        ensures
            r == (*outdated is Some && self.confirm_outdated),
    {
        outdated.is_some() && self.confirm_outdated
    }

    /// A press of the commit button. `outdated` is the warning that the server has newer versions.
    /// With such a warning the first press only says what is at stake.
    pub fn press_commit(&mut self, writing: bool, outdated: &Option<String>) -> (r: Press)
        ensures
            ({
                let sv = status_views(old(self).entries@);
                press_of(
                    writing,
                    picked(sv, Pick::Checked).len() as int,
                    picked(sv, Pick::CheckedNew).len() as int,
                    picked(sv, Pick::CheckedMissing).len() as int,
                    match *outdated {
                        Some(t) => Some(t@),
                        None => None,
                    },
                    old(self).confirm_outdated,
                    r,
                    final(self).confirm_outdated,
                )
            }),
            *final(self) == (CommitPage {
                confirm_outdated: final(self).confirm_outdated,
                ..*old(self)
            }),
    {
        let targets = self.commit_targets();
        let adds = self.selected_targets(Maintain::Add);
        let deletes = self.selected_targets(Maintain::Delete);
        assert(text::views(targets@).len() == targets@.len());
        assert(text::views(adds@).len() == adds@.len());
        assert(text::views(deletes@).len() == deletes@.len());
        if let Some(why) = why_blocked(writing, targets.len()) {
            return Press::Refused(why.to_owned());
        }
        let n = text::count(targets.len());
        match outdated {
            Some(note) => {
                if !self.confirm_outdated {
                    self.confirm_outdated = true;
                    return Press::Armed(
                        text::join2(
                            note.as_str(),
                            "——再点一次「仍要提交」才会按本地版本上传，或点上面的提示条先更新到最新",
                        ),
                    );
                }
                let warning = text::join2(note.as_str(), "，建议先「↓ 更新」再上传");
                let mut hint = text::join3(
                    note.as_str(),
                    "；仍按本地当前版本提交 ",
                    n.as_str(),
                );
                hint.append(" 项 …");
                self.confirm_outdated = false;
                Press::Begin { warning: Some(warning), hint }
            },
            None => {
                let mut hint = text::join3("正在提交 ", n.as_str(), " 项");
                if adds.len() > 0 || deletes.len() > 0 {
                    let a = text::count(adds.len());
                    let d = text::count(deletes.len());
                    let mut s = text::join3("，先 add ", a.as_str(), " 项、delete ");
                    s.append(d.as_str());
                    s.append(" 项");
                    hint.append(s.as_str());
                }
                hint.append(" …");
                self.confirm_outdated = false;
                assert(hint@ =~= "正在提交 "@ + text::decimal(targets@.len() as int) + " 项"@
                    + staging_text(adds@.len() as int, deletes@.len() as int) + " …"@);
                Press::Begin { warning: None, hint }
            },
        }
    }

    /// Gives up a commit that waits for a second press.
    pub fn give_up(&mut self)
        ensures
            *final(self) == (CommitPage { confirm_outdated: false, ..*old(self) }),
    {
        self.confirm_outdated = false;
    }

    /// A press of the button that throws all changes away. Returns whether to do so; the first
    /// press only asks.
    pub fn press_revert(&mut self) -> (r: bool)
        ensures
            r == old(self).confirm_revert,
            *final(self) == (CommitPage {
                confirm_revert: !old(self).confirm_revert,
                ..*old(self)
            }),
    {
        let sure = self.confirm_revert;
        self.confirm_revert = !sure;
        sure
    }

    /// Asks for the differences of an item. Returns whether to leave white space out, or nothing
    /// where no revision knows the item.
    pub fn compare(&mut self, index: usize) -> (r: Option<bool>)
        requires
            index < old(self).entries@.len(),
        ensures
            ({
                let e = old(self).entries@[index as int];
                if e.item is Unversioned || e.item is Ignored {
                    r is None && final(self).diff@ == no_base() && *final(self) == (CommitPage {
                        diff: final(self).diff,
                        ..*old(self)
                    })
                } else {
                    r == Some(is_xml(e.path@)) && final(self).diff@ == "正在读取差异 …"@
                        && *final(self) == (CommitPage {
                        diff: final(self).diff,
                        diff_ignore: is_xml(e.path@),
                        ..*old(self)
                    })
                }
            }),
    {
        let plain = match self.entries[index].item {
            Item::Unversioned => false,
            Item::Ignored => false,
            _ => true,
        };
        if !plain {
            self.diff = "该条目尚未加入版本控制，没有差异可比对。".to_owned();
            return None;
        }
        let ignore = names_xml(self.entries[index].path.as_str());
        self.diff = "正在读取差异 …".to_owned();
        self.diff_ignore = ignore;
        Some(ignore)
    }

    /// Picks an item and asks for its differences, as `compare` does.
    pub fn pick(&mut self, index: usize) -> (r: Option<bool>)
        requires
            index < old(self).entries@.len(),
        ensures
            ({
                let e = old(self).entries@[index as int];
                if e.item is Unversioned || e.item is Ignored {
                    r is None && final(self).diff@ == no_base() && *final(self) == (CommitPage {
                        picked: index,
                        diff: final(self).diff,
                        ..*old(self)
                    })
                } else {
                    r == Some(is_xml(e.path@)) && final(self).diff@ == "正在读取差异 …"@
                        && *final(self) == (CommitPage {
                        picked: index,
                        diff: final(self).diff,
                        diff_ignore: is_xml(e.path@),
                        ..*old(self)
                    })
                }
            }),
    {
        self.picked = index;
        self.compare(index)
    }

    /// Turns white space on or off. Returns the path whose differences to read again.
    pub fn ignore(&mut self, ignore: bool) -> (r: Option<String>)
        ensures
            final(self).diff@.len() == 0,
            *final(self) == (CommitPage {
                diff: final(self).diff,
                diff_ignore: ignore,
                ..*old(self)
            }),
            match r {
                Some(t) => old(self).picked < old(self).entries@.len() && old(self).picked
                    != usize::MAX && t@ == old(self).entries@[old(self).picked as int].path@,
                None => old(self).picked >= old(self).entries@.len() || old(self).picked
                    == usize::MAX,
            },
    {
        self.diff_ignore = ignore;
        self.diff = String::new();
        if self.picked != usize::MAX && self.picked < self.entries.len() {
            Some(self.entries[self.picked].path.clone())
        } else {
            None
        }
    }

    /// What an empty list says.
    pub fn empty_text(&self) -> (r: &'static str)
        ensures
            r@ == (if self.filter@.len() == 0 {
                "没有本地修改，无需提交"@
            } else {
                "过滤后没有匹配项"@
            }),
    {
        if self.filter.as_str().is_empty() {
            "没有本地修改，无需提交"
        } else {
            "过滤后没有匹配项"
        }
    }
}

/// What the list says of an item that the pointer rests on.
pub fn entry_hover(e: &StatusEntry) -> (r: String)
    ensures
        r@ == e.path@ + "\n状态："@ + e.item.word(),
{
    text::join3(e.path.as_str(), "\n状态：", e.item.text())
}

/// What the list says beside an item that an `svn add` or `svn delete` precedes.
pub fn entry_note(item: Item) -> (r: Option<&'static str>)
    ensures
        match item {
            Item::Unversioned => r matches Some(t) && t@ == "自动 add"@,
            Item::Missing => r matches Some(t) && t@ == "自动 delete"@,
            _ => r is None,
        },
{
    match item {
        Item::Unversioned => Some("自动 add"),
        Item::Missing => Some("自动 delete"),
        _ => None,
    }
}

// ---------------------------------------------------------------- laws

/// A commit never takes a conflict or an incomplete item along, and what it takes was checked.
pub proof fn law_targets_are_checked(entries: Seq<StatusView>, n: int, k: int)
    requires
        0 <= n <= entries.len(),
        0 <= k < paths_picked(entries, Pick::Checked, n).len(),
    ensures
        exists|i: int|
            0 <= i < n && #[trigger] entries[i].checked && entries[i].item.uploads()
                && !entries[i].item.blocks() && entries[i].path == paths_picked(
                entries,
                Pick::Checked,
                n,
            )[k],
    decreases n,
{
    if n > 0 {
        let before = paths_picked(entries, Pick::Checked, n - 1);
        if k < before.len() {
            law_targets_are_checked(entries, n - 1, k);
        } else {
            assert(entries[n - 1].checked);
        }
    }
}

/// What an `svn add` or `svn delete` precedes is also committed.
pub proof fn law_staged_is_committed(entries: Seq<StatusView>, n: int, path: Seq<char>)
    requires
        0 <= n <= entries.len(),
    ensures
        paths_picked(entries, Pick::CheckedNew, n).contains(path) || paths_picked(
            entries,
            Pick::CheckedMissing,
            n,
        ).contains(path) ==> paths_picked(entries, Pick::Checked, n).contains(path),
    decreases n,
{
    if n > 0 {
        law_staged_is_committed(entries, n - 1, path);
        let e = entries[n - 1];
        let all = paths_picked(entries, Pick::Checked, n);
        let before = paths_picked(entries, Pick::Checked, n - 1);
        if before.contains(path) {
            let k = choose|k: int| 0 <= k < before.len() && before[k] == path;
            assert(all[k] == path);
        } else if Pick::Checked.takes(e) && e.path == path {
            assert(all[all.len() - 1] == path);
        } else {
            let a = paths_picked(entries, Pick::CheckedNew, n);
            let a0 = paths_picked(entries, Pick::CheckedNew, n - 1);
            let d = paths_picked(entries, Pick::CheckedMissing, n);
            let d0 = paths_picked(entries, Pick::CheckedMissing, n - 1);
            if a.contains(path) {
                let k = choose|k: int| 0 <= k < a.len() && a[k] == path;
                if k < a0.len() {
                    assert(a0[k] == path);
                }
            }
            if d.contains(path) {
                let k = choose|k: int| 0 <= k < d.len() && d[k] == path;
                if k < d0.len() {
                    assert(d0[k] == path);
                }
            }
        }
    }
}

/// With a warning that the server has newer versions, two presses in a row are needed: the first
/// only arms the button, the second begins the commit and disarms it.
pub proof fn law_outdated_needs_two_presses(
    targets: int,
    adds: int,
    deletes: int,
    note: Seq<char>,
    first: Press,
    second: Press,
    armed: bool,
    after: bool,
)
    requires
        targets > 0,
        press_of(false, targets, adds, deletes, Some(note), false, first, armed),
        press_of(false, targets, adds, deletes, Some(note), armed, second, after),
    ensures
        first is Armed && armed,
        second is Begin && !after,
{
}

/// The item is one that a commit takes: added, modified, deleted or replaced, or else not under
/// version control yet or missing.
pub open spec fn can_go(item: Item) -> bool {
    item is Added || item is Modified || item is Deleted || item is Replaced
        || item is Unversioned || item is Missing
}

proof fn lemma_picked_is_filtered(
    entries: Seq<StatusView>,
    pick: Pick,
    want: spec_fn(StatusView) -> bool,
    n: int,
)
    requires
        0 <= n <= entries.len(),
        forall|e: StatusView| #[trigger] want(e) == pick.takes(e),
    ensures
        paths_picked(entries, pick, n) == entries.take(n).filter(want).map_values(
            |e: StatusView| e.path,
        ),
    decreases n,
{
    reveal(Seq::filter);
    let path = |e: StatusView| e.path;
    if n == 0 {
        assert(entries.take(0).filter(want).map_values(path) =~= Seq::empty());
    } else {
        lemma_picked_is_filtered(entries, pick, want, n - 1);
        assert(entries.take(n).drop_last() =~= entries.take(n - 1));
        assert(entries.take(n).last() == entries[n - 1]);
        let before = entries.take(n - 1).filter(want);
        assert(want(entries[n - 1]) == pick.takes(entries[n - 1]));
        assert(before.push(entries[n - 1]).map_values(path) =~= before.map_values(path).push(
            entries[n - 1].path,
        ));
    }
}

/// A commit takes the paths of the checked items that can go, in the order of the list. It first
/// adds those of them that are not under version control and deletes those that are missing. An
/// upload does the same with all items, checked or not.
pub proof fn law_picks_are_the_items_in_order(entries: Seq<StatusView>)
    ensures
        picked(entries, Pick::Checked) == entries.filter(
            |e: StatusView| e.checked && can_go(e.item),
        ).map_values(|e: StatusView| e.path),
        picked(entries, Pick::CheckedNew) == entries.filter(
            |e: StatusView| e.checked && e.item is Unversioned,
        ).map_values(|e: StatusView| e.path),
        picked(entries, Pick::CheckedMissing) == entries.filter(
            |e: StatusView| e.checked && e.item is Missing,
        ).map_values(|e: StatusView| e.path),
        picked(entries, Pick::Any) == entries.filter(
            |e: StatusView| can_go(e.item),
        ).map_values(|e: StatusView| e.path),
        picked(entries, Pick::AnyNew) == entries.filter(
            |e: StatusView| e.item is Unversioned,
        ).map_values(|e: StatusView| e.path),
        picked(entries, Pick::AnyMissing) == entries.filter(
            |e: StatusView| e.item is Missing,
        ).map_values(|e: StatusView| e.path),
{
    let n = entries.len() as int;
    assert(entries.take(n) =~= entries);
    lemma_picked_is_filtered(
        entries,
        Pick::Checked,
        |e: StatusView| e.checked && can_go(e.item),
        n,
    );
    lemma_picked_is_filtered(
        entries,
        Pick::CheckedNew,
        |e: StatusView| e.checked && e.item is Unversioned,
        n,
    );
    lemma_picked_is_filtered(
        entries,
        Pick::CheckedMissing,
        |e: StatusView| e.checked && e.item is Missing,
        n,
    );
    lemma_picked_is_filtered(entries, Pick::Any, |e: StatusView| can_go(e.item), n);
    lemma_picked_is_filtered(entries, Pick::AnyNew, |e: StatusView| e.item is Unversioned, n);
    lemma_picked_is_filtered(entries, Pick::AnyMissing, |e: StatusView| e.item is Missing, n);
}

proof fn lemma_count_in(
    entries: Seq<StatusView>,
    group: Group,
    want: spec_fn(StatusView) -> bool,
    n: int,
)
    requires
        0 <= n <= entries.len(),
        forall|e: StatusView| #[trigger] want(e) == (group_of(e.item) == Some(group)),
    ensures
        count_in(entries, group, n) == entries.take(n).filter(want).len(),
    decreases n,
{
    reveal(Seq::filter);
    if n > 0 {
        lemma_count_in(entries, group, want, n - 1);
        assert(entries.take(n).drop_last() =~= entries.take(n - 1));
        assert(entries.take(n).last() == entries[n - 1]);
        assert(want(entries[n - 1]) == (group_of(entries[n - 1].item) == Some(group)));
    }
}

/// The numbers of the page: as new counts what is added or not under version control, as changed
/// what is modified or replaced, as gone what is deleted or missing. Together they are the items
/// that can go.
pub proof fn law_groups_are_counted(entries: Seq<StatusView>)
    ensures
        ({
            let n = entries.len() as int;
            let new = count_in(entries, Group::New, n);
            let changed = count_in(entries, Group::Changed, n);
            let gone = count_in(entries, Group::Gone, n);
            &&& new == entries.filter(
                |e: StatusView| e.item is Added || e.item is Unversioned,
            ).len()
            &&& changed == entries.filter(
                |e: StatusView| e.item is Modified || e.item is Replaced,
            ).len()
            &&& gone == entries.filter(
                |e: StatusView| e.item is Deleted || e.item is Missing,
            ).len()
            &&& new + changed + gone == entries.filter(|e: StatusView| can_go(e.item)).len()
        }),
{
    let n = entries.len() as int;
    assert(entries.take(n) =~= entries);
    lemma_count_in(
        entries,
        Group::New,
        |e: StatusView| e.item is Added || e.item is Unversioned,
        n,
    );
    lemma_count_in(
        entries,
        Group::Changed,
        |e: StatusView| e.item is Modified || e.item is Replaced,
        n,
    );
    lemma_count_in(
        entries,
        Group::Gone,
        |e: StatusView| e.item is Deleted || e.item is Missing,
        n,
    );
    lemma_groups_add_up(entries, n);
}

proof fn lemma_groups_add_up(entries: Seq<StatusView>, n: int)
    requires
        0 <= n <= entries.len(),
    ensures
        count_in(entries, Group::New, n) + count_in(entries, Group::Changed, n) + count_in(
            entries,
            Group::Gone,
            n,
        ) == entries.take(n).filter(|e: StatusView| can_go(e.item)).len(),
    decreases n,
{
    reveal(Seq::filter);
    if n > 0 {
        lemma_groups_add_up(entries, n - 1);
        assert(entries.take(n).drop_last() =~= entries.take(n - 1));
        assert(entries.take(n).last() == entries[n - 1]);
    }
}

/// `part` stands somewhere in `s`.
pub open spec fn stands_in(s: Seq<char>, part: Seq<char>) -> bool {
    exists|k: int|
        0 <= k && k + part.len() <= s.len() && #[trigger] s.subrange(k, k + part.len()) == part
}

/// To stand somewhere in a text is to occur in it.
pub proof fn lemma_stands_in(s: Seq<char>, part: Seq<char>)
    ensures
        stands_in(s, part) <==> text::occurs(s, part),
{
    if stands_in(s, part) {
        let k = choose|k: int|
            0 <= k && k + part.len() <= s.len() && #[trigger] s.subrange(k, k + part.len())
                == part;
        assert(text::occurs_at(s, part, k));
    }
    if text::occurs(s, part) {
        let k = choose|k: int| text::occurs_at(s, part, k);
        assert(s.subrange(k, k + part.len()) == part);
    }
}

/// The list shows exactly the items whose name or whose path holds the filter, in their order;
/// without a filter it shows all.
pub proof fn law_filter_leaves_what_holds_it(
    filter: Seq<char>,
    names: Seq<Seq<char>>,
    paths: Seq<Seq<char>>,
    n: int,
)
    requires
        0 <= n <= names.len(),
        names.len() == paths.len(),
        names.len() <= usize::MAX,
    ensures
        ({
            let list = passing(filter, names, paths, n);
            &&& forall|i: usize| #[trigger]
                list.contains(i) <==> i < n && (filter.len() == 0 || stands_in(
                    names[i as int],
                    filter,
                ) || stands_in(paths[i as int], filter))
            &&& forall|j: int, k: int|
                0 <= j < k < list.len() ==> #[trigger] list[j] < #[trigger] list[k]
        }),
    decreases n,
{
    let list = passing(filter, names, paths, n);
    if n > 0 {
        law_filter_leaves_what_holds_it(filter, names, paths, n - 1);
        let before = passing(filter, names, paths, n - 1);
        let last = (n - 1) as usize;
        lemma_stands_in(names[n - 1], filter);
        lemma_stands_in(paths[n - 1], filter);
        assert forall|i: usize| #[trigger] list.contains(i) <==> i < n && (filter.len() == 0
            || stands_in(names[i as int], filter) || stands_in(paths[i as int], filter)) by {
            if list.len() > before.len() {
                assert(list[before.len() as int] == last);
            }
            if before.contains(i) {
                let k = choose|k: int| 0 <= k < before.len() && before[k] == i;
                assert(list[k] == i);
            }
            if list.contains(i) {
                let k = choose|k: int| 0 <= k < list.len() && list[k] == i;
                if k < before.len() {
                    assert(before[k] == i);
                    assert(before.contains(i));
                }
            }
        }
        assert forall|j: int, k: int| 0 <= j < k < list.len() implies #[trigger] list[j]
            < #[trigger] list[k] by {
            assert(list[j] == before[j]);
            assert(before.contains(before[j]));
            if k < before.len() {
                assert(list[k] == before[k]);
            }
        }
    }
}

/// A path below a directory is shown without it, whatever separators the directory ends with.
/// Every other path is shown whole.
pub proof fn law_paths_are_shown_below_the_root(root: Seq<char>, rest: Seq<char>, full: Seq<char>)
    ensures
        rest.len() > 0 && (root.len() > 0 ==> root.last() != '\\' && root.last() != '/')
            ==> below_root(root + seq!['\\'] + rest, root) == rest && below_root(
            root + seq!['\\'] + rest,
            root + seq!['\\'],
        ) == rest && below_root(root + seq!['\\'] + rest, root + seq!['/']) == rest,
        !crate::upload::lies_in(full, root) ==> below_root(full, root) == full,
{
    let whole = root + seq!['\\'] + rest;
    let prefix = root.push('\\');
    if root.len() > 0 ==> root.last() != '\\' && root.last() != '/' {
        assert(text::strip_end(root, '\\', '/') == root);
        assert((root + seq!['\\']).subrange(0, root.len() as int) =~= root);
        assert((root + seq!['/']).subrange(0, root.len() as int) =~= root);
        assert(text::strip_end(root + seq!['\\'], '\\', '/') == root);
        assert(text::strip_end(root + seq!['/'], '\\', '/') == root);
        assert(whole.subrange(0, prefix.len() as int) =~= prefix);
        assert(text::after(whole, prefix.len() as int) =~= rest);
    }
    crate::upload::lemma_lies_in(full, root);
}

/// There is a warning exactly where the server is known to have changes that are not here, and it
/// names how many, and the newest revision where that is known.
pub proof fn law_warnings_count_what_is_missing(
    out_of_date: Option<usize>,
    remote_rev: Seq<char>,
)
    ensures
        outdated_note(out_of_date, remote_rev) is Some <==> (out_of_date matches Some(n) && n >= 1),
        outdated_note(out_of_date, remote_rev) matches Some(t) ==> text::occurs(
            t,
            text::decimal(out_of_date->Some_0 as int),
        ) && (remote_rev.len() > 0 ==> text::occurs(t, remote_rev)),
{
    if let Some(n) = out_of_date {
        if n > 0 {
            let d = text::decimal(n as int);
            let t = outdated_note(out_of_date, remote_rev)->Some_0;
            let tail = " 项改动没拉到本地"@;
            let mid = "：服务器还有 "@;
            if remote_rev.len() > 0 {
                let head = "未更新到最新版本"@ + "，远端已是 r"@;
                text::lemma_occurs_between(head + remote_rev + mid, d, tail);
                assert(t =~= head + remote_rev + mid + d + tail);
                text::lemma_occurs_between(head, remote_rev, mid + d + tail);
                assert(t =~= head + remote_rev + (mid + d + tail));
            } else {
                text::lemma_occurs_between("未更新到最新版本"@ + mid, d, tail);
                assert(t =~= "未更新到最新版本"@ + mid + d + tail);
            }
        }
    }
}

/// Nothing is refused but what meets another command that writes, or has nothing to commit.
pub proof fn law_commits_are_refused_for_a_reason(writing: bool, targets: int)
    ensures
        commit_block(writing, targets) is None <==> !writing && targets != 0,
        commit_block(true, targets) == commit_block(true, targets + 1),
{
}

/// A difference is shown as it was printed, unless it is blank; a blank one is never shown.
pub proof fn law_differences_are_shown_as_printed(ok: bool, message: Seq<char>, ignored: bool)
    ensures
        text::trim(message).len() > 0 ==> diff_shown(ok, message, ignored) == message,
        text::trim(message).len() == 0 ==> diff_shown(ok, message, ignored).len() > 0
            && diff_shown(ok, message, ignored) == diff_shown(ok, Seq::empty(), ignored),
        text::trim(message).len() == 0 ==> diff_shown(false, message, ignored) != diff_shown(
            true,
            message,
            ignored,
        ) && diff_shown(true, message, true) != diff_shown(true, message, false),
{
    reveal_strlit("无法取得差异（svn diff 执行失败）");
    reveal_strlit(
        "忽略空白与换行后没有内容改动：这一项只是缩进、空格或换行符（CRLF↔LF）变了。\n取消勾选「忽略空白与换行」就能看到整份文件被逐行替换。",
    );
    reveal_strlit("没有差异：该文件内容与 BASE 版本一致。");
    assert(text::trim(Seq::<char>::empty()).len() == 0);
    assert("无法取得差异（svn diff 执行失败）"@[0] == '无');
    assert("没有差异：该文件内容与 BASE 版本一致。"@[0] == '没');
    assert(diff_shown(true, Seq::empty(), true)[0] == '忽');
}

} // verus!

