//! The dialogs: changing the address of a repository, uploading all directories, installing a new
//! version.

use vstd::prelude::*;
use crate::commit::{count_in, Group};
use crate::jobs::{runs, Kind, UpdateManifest};
use crate::model::{DirView, Level, Relocate, UploadAll};
use crate::results::said;
use crate::state::{pushed, News, SvnApp};
use crate::svn::{status_views, Item, StatusEntry};
use crate::tasks::hinted;
use crate::text;

verus! {

// ---------------------------------------------------------------- the address of a repository

/// The front of an address as it was typed, without what does not belong to it.
pub open spec fn front(s: Seq<char>) -> Seq<char> {
    text::strip_end(text::trim(s), '/', '/')
}

/// The address `current` with its front `from` replaced by `to`; nothing where one of them is empty
/// or `from` is not the front of it.
pub open spec fn moved(current: Seq<char>, from: Seq<char>, to: Seq<char>) -> Option<Seq<char>> {
    if from.len() == 0 || to.len() == 0 || !text::begins(current, from) {
        None
    } else {
        Some(to + text::after(current, from.len() as int))
    }
}

/// The old front, the new front and the new address.
#[derive(Debug)]
pub struct Move {
    pub from: String,
    pub to: String,
    pub new_url: String,
}

/// What a press of Enter in the dialog comes to.
#[derive(Debug)]
pub enum Enter {
    /// The address is changed.
    Go(Move),
    /// Nothing happens: a change is under way.
    Wait,
    /// There is nothing to change; the dialog says so.
    Refused,
}

impl Relocate {
    /// The address that the dialog would lead to.
    pub open spec fn leads_to(self, current: Seq<char>) -> Option<Seq<char>> {
        moved(current, front(self.from@), front(self.to@))
    }

    /// `m` is the change that the dialog stands for.
    pub open spec fn stands_for(self, current: Seq<char>, m: Move) -> bool {
        &&& m.from@ == front(self.from@)
        &&& m.to@ == front(self.to@)
        &&& self.leads_to(current) == Some(m.new_url@)
    }

    /// The change that the dialog stands for; nothing where the fronts do not fit.
    pub fn planned(&self, current: &str) -> (r: Option<Move>)
        ensures
            match r {
                Some(m) => self.stands_for(current@, m),
                None => self.leads_to(current@) is None,
            },
    {
        let f = text::trimmed(self.from.as_str());
        let from = text::stripped_end(f.as_str(), '/', '/');
        let t = text::trimmed(self.to.as_str());
        let to = text::stripped_end(t.as_str(), '/', '/');
        if from.as_str().is_empty() || to.as_str().is_empty() {
            return None;
        }
        match text::without_prefix(current, from.as_str()) {
            Some(rest) => {
                let new_url = text::join2(to.as_str(), rest.as_str());
                Some(Move { from, to, new_url })
            },
            None => None,
        }
    }

    /// Why there is no new address to show.
    pub fn planned_tip(&self) -> (r: &'static str)
        ensures
            r@ == (if front(self.to@).len() == 0 {
                "填好新地址前缀后，这里会显示改写后的地址"@
            } else {
                "原地址前缀必须是当前地址的开头，请核对"@
            }),
    {
        let t = text::trimmed(self.to.as_str());
        let to = text::stripped_end(t.as_str(), '/', '/');
        if to.as_str().is_empty() {
            "填好新地址前缀后，这里会显示改写后的地址"
        } else {
            "原地址前缀必须是当前地址的开头，请核对"
        }
    }

    /// The dialog leads to another address.
    pub open spec fn changes(self, current: Seq<char>) -> bool {
        self.leads_to(current) matches Some(u) && u != current
    }

    /// Whether the button can be pressed. `running` tells that a change is under way.
    pub fn is_ready(&self, running: bool, current: &str) -> (r: bool)
        ensures
            r == (!running && self.changes(current@)),
    {
        match self.planned(current) {
            Some(m) => !running && !text::same(m.new_url.as_str(), current),
            None => false,
        }
    }

    /// The button was pressed. Returns the change to make, where it could be pressed.
    pub fn press(&mut self, running: bool, current: &str) -> (r: Option<Move>)
        ensures
            match r {
                Some(m) => {
                    &&& !running && old(self).changes(current@)
                    &&& old(self).stands_for(current@, m)
                    &&& final(self).error@.len() == 0
                    &&& *final(self) == (Relocate { error: final(self).error, ..*old(self) })
                },
                None => !(!running && old(self).changes(current@)) && *final(self) == *old(self),
            },
    {
        if !self.is_ready(running, current) {
            return None;
        }
        let m = self.planned(current);
        self.error = String::new();
        m
    }

    /// Enter was pressed in the field of the new front.
    pub fn enter(&mut self, running: bool, current: &str) -> (r: Enter)
        ensures
            if !old(self).changes(current@) {
                &&& r is Refused
                &&& final(self).error@ == "请填写与当前地址不同的新地址前缀"@
                &&& *final(self) == (Relocate { error: final(self).error, ..*old(self) })
            } else if running {
                r is Wait && *final(self) == *old(self)
            } else {
                &&& r matches Enter::Go(m) && old(self).stands_for(current@, m)
                &&& final(self).error@.len() == 0
                &&& *final(self) == (Relocate { error: final(self).error, ..*old(self) })
            },
    {
        match self.planned(current) {
            Some(m) => {
                if text::same(m.new_url.as_str(), current) {
                    self.error = "请填写与当前地址不同的新地址前缀".to_owned();
                    Enter::Refused
                } else if running {
                    Enter::Wait
                } else {
                    self.error = String::new();
                    Enter::Go(m)
                }
            },
            None => {
                self.error = "请填写与当前地址不同的新地址前缀".to_owned();
                Enter::Refused
            },
        }
    }
}

/// What is said beside the button.
pub fn relocate_note(running: bool, planned: &Option<Move>, current: &str) -> (r: Option<
    &'static str,
>)
    ensures
        if running {
            r matches Some(t) && t@ == "正在修改 …"@
        } else if planned matches Some(m) && m.new_url@ == current@ {
            r matches Some(t) && t@ == "新旧地址一样"@
        } else {
            r is None
        },
{
    if running {
        return Some("正在修改 …");
    }
    match planned {
        Some(m) => if text::same(m.new_url.as_str(), current) {
            Some("新旧地址一样")
        } else {
            None
        },
        None => None,
    }
}

/// A change of an address can be taken back: with the two fronts exchanged it leads to where it
/// came from, and only the front is touched.
pub proof fn law_moves_can_be_taken_back(current: Seq<char>, from: Seq<char>, to: Seq<char>)
    requires
        moved(current, from, to) is Some,
    ensures
        moved(moved(current, from, to)->0, to, from) == Some(current),
        text::ends(moved(current, from, to)->0, text::after(current, from.len() as int)),
{
    let rest = text::after(current, from.len() as int);
    let new = to + rest;
    assert(new.take(to.len() as int) =~= to);
    assert(text::after(new, to.len() as int) =~= rest);
    assert(from + rest =~= current);
    assert(new.subrange(new.len() - rest.len(), new.len() as int) =~= rest);
}

// ---------------------------------------------------------------- all directories at once

/// How many of the first `n` directories take part.
pub open spec fn picked_among(checked: Seq<bool>, n: int) -> int
    decreases n,
{
    if n <= 0 {
        0
    } else {
        picked_among(checked, n - 1) + if checked[n - 1] {
            1int
        } else {
            0
        }
    }
}

/// Those of the first `n` directories that take part.
pub open spec fn taking_part(checked: Seq<bool>, n: int) -> Seq<usize>
    decreases n,
{
    if n <= 0 {
        Seq::empty()
    } else if checked[n - 1] {
        taking_part(checked, n - 1).push((n - 1) as usize)
    } else {
        taking_part(checked, n - 1)
    }
}

/// What a press in the dialog comes to.
#[derive(Debug)]
pub enum UploadPress {
    /// The button cannot be pressed.
    Nothing,
    /// Another press is asked for.
    Armed,
    /// These directories are uploaded with this message.
    Go(Vec<usize>, String),
}

impl UploadAll {
    /// Brings the dialog in line with a list of `n` directories: new ones take part.
    pub fn align(&mut self, n: usize)
        ensures
            final(self).checked@.len() == n,
            forall|i: int|
                0 <= i < n ==> #[trigger] final(self).checked@[i] == (if i
                    < old(self).checked@.len() {
                    old(self).checked@[i]
                } else {
                    true
                }),
            final(self).detail == (match old(self).detail {
                Some(i) => if i >= n {
                    None
                } else {
                    Some(i)
                },
                None => None,
            }),
            *final(self) == (UploadAll {
                checked: final(self).checked,
                detail: final(self).detail,
                ..*old(self)
            }),
    {
        let ghost first = *self;
        self.checked.truncate(n);
        while self.checked.len() < n
            invariant
                self.checked.len() <= n,
                *self == (UploadAll { checked: self.checked, ..first }),
                self.checked@.len() >= first.checked@.len() || self.checked@.len() == n,
                forall|i: int|
                    0 <= i < self.checked@.len() ==> #[trigger] self.checked@[i] == (if i
                        < first.checked@.len() {
                        first.checked@[i]
                    } else {
                        true
                    }),
            decreases n - self.checked.len(),
        {
            self.checked.push(true);
        }
        if let Some(i) = self.detail {
            if i >= n {
                self.detail = None;
            }
        }
    }

    /// Lets all directories take part, or none.
    pub fn set_all(&mut self, checked: bool)
        ensures
            final(self).checked@ == Seq::new(old(self).checked@.len(), |i: int| checked),
            *final(self) == (UploadAll { checked: final(self).checked, ..*old(self) }),
    {
        let n = self.checked.len();
        let mut list: Vec<bool> = Vec::new();
        while list.len() < n
            invariant
                list.len() <= n,
                forall|i: int| 0 <= i < list@.len() ==> list@[i] == checked,
            decreases n - list.len(),
        {
            list.push(checked);
        }
        assert(list@ =~= Seq::new(n as nat, |i: int| checked));
        self.checked = list;
    }

    /// How many directories take part.
    pub fn picked(&self) -> (r: usize)
        ensures
            r == picked_among(self.checked@, self.checked@.len() as int),
    {
        let mut n: usize = 0;
        let mut i: usize = 0;
        while i < self.checked.len()
            invariant
                i <= self.checked.len(),
                n <= i,
                n == picked_among(self.checked@, i as int),
            decreases self.checked.len() - i,
        {
            if self.checked[i] {
                n += 1;
            }
            i += 1;
        }
        n
    }

    /// An upload can begin: somebody takes part, and nothing is being committed.
    pub open spec fn is_ready(self, busy: bool) -> bool {
        &&& picked_among(self.checked@, self.checked@.len() as int) > 0
        &&& !busy
    }

    /// What the button says.
    pub open spec fn caption_text(self) -> Seq<char> {
        let total = self.checked@.len() as int;
        let picked = picked_among(self.checked@, total);
        if self.confirm {
            "确认上传？"@ + text::decimal(picked) + " 个目录的改动会立即进服务器"@
        } else if picked == total {
            "全部上传（"@ + (text::decimal(total) + " 个目录"@) + "）"@
        } else {
            "全部上传（"@ + ("勾选 "@ + text::decimal(picked) + " / "@ + text::decimal(total)
                + " 个目录"@) + "）"@
        }
    }

    /// What the button says.
    pub fn caption(&self) -> (r: String)
        ensures
            r@ == self.caption_text(),
    {
        let total = self.checked.len();
        let picked = self.picked();
        let p = text::count(picked);
        if self.confirm {
            return text::join3("确认上传？", p.as_str(), " 个目录的改动会立即进服务器");
        }
        let t = text::count(total);
        let inner = if picked == total {
            text::join2(t.as_str(), " 个目录")
        } else {
            let mut s = text::join3("勾选 ", p.as_str(), " / ");
            s.append(t.as_str());
            s.append(" 个目录");
            s
        };
        text::join3("全部上传（", inner.as_str(), "）")
    }

    /// The button was pressed. The first press asks for another: what is uploaded cannot be taken
    /// back. `busy` tells that some directory is being committed.
    pub fn press(&mut self, busy: bool) -> (r: UploadPress)
        ensures
            if !old(self).is_ready(busy) {
                r is Nothing && *final(self) == *old(self)
            } else if !old(self).confirm {
                r is Armed && *final(self) == (UploadAll { confirm: true, ..*old(self) })
            } else {
                &&& r matches UploadPress::Go(list, message) && list@ == taking_part(
                    old(self).checked@,
                    old(self).checked@.len() as int,
                ) && message@ == old(self).message@
                &&& *final(self) == *old(self)
            },
    {
        if busy || self.picked() == 0 {
            return UploadPress::Nothing;
        }
        if !self.confirm {
            self.confirm = true;
            return UploadPress::Armed;
        }
        let mut list: Vec<usize> = Vec::new();
        let mut i: usize = 0;
        while i < self.checked.len()
            invariant
                i <= self.checked.len(),
                list@ == taking_part(self.checked@, i as int),
            decreases self.checked.len() - i,
        {
            if self.checked[i] {
                list.push(i);
            }
            i += 1;
        }
        UploadPress::Go(list, self.message.clone())
    }

    /// The question whether to upload is answered with no.
    pub fn hold_back(&mut self)
        ensures
            *final(self) == (UploadAll { confirm: false, ..*old(self) }),
    {
        self.confirm = false;
    }

    /// Why nothing can be uploaded; nothing where something can.
    pub fn blocked_note(&self, busy: bool) -> (r: Option<&'static str>)
        ensures
            if self.checked@.len() == 0 {
                r matches Some(t) && t@ == "目录列表是空的"@
            } else if busy {
                r matches Some(t) && t@ == "有目录正在提交，等它结束后才能批量上传"@
            } else if picked_among(self.checked@, self.checked@.len() as int) == 0 {
                r matches Some(t) && t@ == "先勾选至少一个目录"@
            } else {
                r is None
            },
    {
        if self.checked.len() == 0 {
            Some("目录列表是空的")
        } else if busy {
            Some("有目录正在提交，等它结束后才能批量上传")
        } else if self.picked() == 0 {
            Some("先勾选至少一个目录")
        } else {
            None
        }
    }
}

/// What is said of a directory in the dialog, and whether a press shows its changes.
pub fn upload_note(changed: Option<usize>) -> (r: (String, bool))
    ensures
        match changed {
            Some(n) => if n == 0 {
                r.0@ == "无改动，自动跳过"@ && !r.1
            } else {
                r.0@ == "待提交 "@ + text::decimal(n as int) + " 项"@ && r.1
            },
            None => r.0@ == "未检测，点击读取"@ && r.1,
        },
{
    match changed {
        Some(n) => if n == 0 {
            ("无改动，自动跳过".to_owned(), false)
        } else {
            let n = text::count(n);
            (text::join3("待提交 ", n.as_str(), " 项"), true)
        },
        None => ("未检测，点击读取".to_owned(), true),
    }
}

impl SvnApp {
    /// Some directory is being committed.
    pub open spec fn any_commits(self) -> bool {
        exists|i: usize| i < self.cfg.dirs@.len() && #[trigger] runs(
            self.pool.tasks@,
            Kind::Commit,
            i,
        )
    }

    /// Whether some directory is being committed.
    pub fn is_any_committing(&self) -> (r: bool)
        ensures
            r == self.any_commits(),
    {
        let mut i: usize = 0;
        while i < self.cfg.dirs.len()
            invariant
                i <= self.cfg.dirs.len(),
                forall|k: usize| k < i ==> !#[trigger] runs(self.pool.tasks@, Kind::Commit, k),
            decreases self.cfg.dirs.len() - i,
        {
            if self.pool.has(Kind::Commit, i) {
                return true;
            }
            i += 1;
        }
        false
    }

    /// The button of the dialog asks for another press.
    pub fn hint_upload(&mut self)
        ensures
            hinted(
                *old(self),
                "这一步会改动服务器：核对上面的目录后，再点一次「确认上传」"@,
                *final(self),
            ),
    {
        self.hint("这一步会改动服务器：核对上面的目录后，再点一次「确认上传」");
    }

    /// Tells that `picked` directories are being uploaded, and closes the dialog.
    pub fn end_upload(&mut self, picked: usize)
        ensures
            said(*final(self)) == pushed(
                said(*old(self)),
                Level::Info,
                "全部上传：已给 "@ + text::decimal(picked as int)
                    + " 个目录排上提交任务（没有改动的会自动跳过）"@,
            ),
            *final(self) == (SvnApp {
                output: final(self).output,
                upload_all: None,
                ..*old(self)
            }),
    {
        let n = text::count(picked);
        let t = text::join3(
            "全部上传：已给 ",
            n.as_str(),
            " 个目录排上提交任务（没有改动的会自动跳过）",
        );
        self.push(Level::Info, t.as_str());
        self.upload_all = None;
    }
}

/// An upload of all directories takes those that are checked, each of them once, and no other.
pub proof fn law_upload_takes_who_is_checked(checked: Seq<bool>, n: int, i: int)
    requires
        0 <= n <= checked.len(),
        checked.len() <= usize::MAX,
        0 <= i < n,
    ensures
        taking_part(checked, n).contains(i as usize) == checked[i],
        taking_part(checked, n).len() == picked_among(checked, n),
    decreases n,
{
    lemma_taking_part_len(checked, n);
    lemma_taking_part_below(checked, n - 1);
    let list = taking_part(checked, n);
    let head = taking_part(checked, n - 1);
    if i == n - 1 {
        if checked[i] {
            assert(list[list.len() - 1] == i as usize);
        } else if list.contains(i as usize) {
            let k = choose|k: int| 0 <= k < list.len() && list[k] == i as usize;
            assert(list[k] < n - 1);
        }
    } else {
        law_upload_takes_who_is_checked(checked, n - 1, i);
        if checked[i] {
            let k = choose|k: int| 0 <= k < head.len() && head[k] == i as usize;
            assert(list[k] == i as usize);
        } else if list.contains(i as usize) {
            let k = choose|k: int| 0 <= k < list.len() && list[k] == i as usize;
            assert(k < head.len() ==> head[k] == i as usize);
            assert(head.contains(i as usize));
        }
    }
}

proof fn lemma_taking_part_len(checked: Seq<bool>, n: int)
    requires
        0 <= n <= checked.len(),
    ensures
        taking_part(checked, n).len() == picked_among(checked, n),
    decreases n,
{
    if n > 0 {
        lemma_taking_part_len(checked, n - 1);
    }
}

proof fn lemma_taking_part_below(checked: Seq<bool>, n: int)
    requires
        0 <= n <= checked.len(),
        checked.len() <= usize::MAX,
    ensures
        forall|k: int| 0 <= k < taking_part(checked, n).len() ==> #[trigger] taking_part(checked, n)[k] < n,
    decreases n,
{
    if n > 0 {
        lemma_taking_part_below(checked, n - 1);
        let head = taking_part(checked, n - 1);
        let list = taking_part(checked, n);
        assert forall|k: int| 0 <= k < list.len() implies #[trigger] list[k] < n by {
            if k < head.len() {
                assert(list[k] == head[k]);
                assert(head[k] < n - 1);
            }
        }
    }
}

// ---------------------------------------------------------------- what an upload would take along

/// How many items count as new, changed and gone.
pub fn detail_counts(changes: &Vec<StatusEntry>) -> (r: (usize, usize, usize))
    ensures
        ({
            let sv = status_views(changes@);
            &&& r.0 == count_in(sv, Group::New, sv.len() as int)
            &&& r.1 == count_in(sv, Group::Changed, sv.len() as int)
            &&& r.2 == count_in(sv, Group::Gone, sv.len() as int)
        }),
{
    crate::commit::count_groups(changes)
}

/// The name of an item below `root`: its path below it, or the bare name where it does not lie
/// there.
pub open spec fn detail_name(path: Seq<char>, name: Seq<char>, root: Seq<char>) -> Seq<char> {
    if text::begins(path, root) {
        let rest = text::strip_start(text::after(path, root.len() as int), '\\', '/');
        if rest.len() > 0 {
            rest
        } else {
            name
        }
    } else {
        name
    }
}

/// The name of an item below `root`.
pub fn detail_line(entry: &StatusEntry, root: &str) -> (r: String)
    ensures
        r@ == detail_name(entry.path@, entry.name@, root@),
{
    match text::without_prefix(entry.path.as_str(), root) {
        Some(rest) => {
            let shown = text::stripped_start(rest.as_str(), '\\', '/');
            if shown.as_str().is_empty() {
                entry.name.clone()
            } else {
                shown
            }
        },
        None => entry.name.clone(),
    }
}

/// What is said beside an item that an upload has to add or delete first.
pub fn detail_note(item: Item) -> (r: Option<&'static str>)
    ensures
        match item {
            Item::Unversioned => r matches Some(t) && t@ == "提交时自动 add"@,
            Item::Missing => r matches Some(t) && t@ == "提交时自动 delete"@,
            _ => r is None,
        },
{
    match item {
        Item::Unversioned => Some("提交时自动 add"),
        Item::Missing => Some("提交时自动 delete"),
        _ => None,
    }
}

/// What is said where there is nothing to list.
pub fn detail_empty(view: &DirView) -> (r: &'static str)
    ensures
        r@ == (if view.changed is Some {
            "该目录没有会进本次上传的改动"@
        } else {
            "尚未读到该目录的修改清单，点上方「重新读取」"@
        }),
{
    if view.changed.is_some() {
        "该目录没有会进本次上传的改动"
    } else {
        "尚未读到该目录的修改清单，点上方「重新读取」"
    }
}

// ---------------------------------------------------------------- a new version

/// What the dialog about a new version says of it.
#[derive(Debug)]
pub struct UpdateNote {
    /// The old version, where it is another.
    pub from: Option<String>,
    pub to: String,
    /// What is said where only the contents are new.
    pub replaced: Option<&'static str>,
    pub published: Option<String>,
    pub notes: String,
}

/// What the dialog says of a new version. `replaced` tells that it has the same number as the
/// `current` one.
pub fn update_note(manifest: &UpdateManifest, replaced: bool, current: &str) -> (r: UpdateNote)
    ensures
        match r.from {
            Some(t) => !replaced && t@ == "V"@ + current@,
            None => replaced,
        },
        r.to@ == "V"@ + text::trim(manifest.version@),
        match r.replaced {
            Some(t) => replaced && t@ == "内容有更新（版本号没变）"@,
            None => !replaced,
        },
        match r.published {
            Some(t) => text::trim(manifest.published_at@).len() > 0 && t@ == "发布于 "@ + text::trim(
                manifest.published_at@,
            ),
            None => text::trim(manifest.published_at@).len() == 0,
        },
        r.notes@ == text::trim(manifest.notes@),
{
    let latest = text::trimmed(manifest.version.as_str());
    let at = text::trimmed(manifest.published_at.as_str());
    UpdateNote {
        from: if replaced {
            None
        } else {
            Some(text::join2("V", current))
        },
        to: text::join2("V", latest.as_str()),
        replaced: if replaced {
            Some("内容有更新（版本号没变）")
        } else {
            None
        },
        published: if at.as_str().is_empty() {
            None
        } else {
            Some(text::join2("发布于 ", at.as_str()))
        },
        notes: text::trimmed(manifest.notes.as_str()),
    }
}

impl SvnApp {
    /// The dialog about a new version is shown. Where nothing is known of one it closes.
    pub fn shows_update(&mut self) -> (r: bool)
        ensures
            r == (old(self).news.show_update_confirm && old(self).news.update_info is Some),
            *final(self) == (SvnApp {
                news: News { show_update_confirm: r, ..old(self).news },
                ..*old(self)
            }),
    {
        if self.news.show_update_confirm && self.news.update_info.is_none() {
            self.news.show_update_confirm = false;
        }
        self.news.show_update_confirm
    }

    /// What the dialog says of the download.
    pub fn update_state(&self) -> (r: String)
        ensures
            r@ == (if runs(self.pool.tasks@, Kind::DownloadUpdate, usize::MAX) {
                "正在下载新版本并校验…"@
            } else {
                match self.news.update_error {
                    Some(e) => "上次下载失败："@ + e@,
                    None => "点「开始更新」后下载新版本并自动校验，然后程序自动退出完成覆盖并重新启动。"@,
                }
            }),
    {
        if self.pool.has(Kind::DownloadUpdate, usize::MAX) {
            return "正在下载新版本并校验…".to_owned();
        }
        match &self.news.update_error {
            Some(e) => text::join2("上次下载失败：", e.as_str()),
            None => "点「开始更新」后下载新版本并自动校验，然后程序自动退出完成覆盖并重新启动。".to_owned(),
        }
    }

    /// The dialog about a new version was used: it stays `open` unless it is put off.
    pub fn end_update_dialog(&mut self, open: bool, put_off: bool)
        ensures
            *final(self) == (SvnApp {
                news: News { show_update_confirm: open && !put_off, ..old(self).news },
                ..*old(self)
            }),
    {
        self.news.show_update_confirm = open && !put_off;
    }

    /// The update was asked for again: what went wrong before is forgotten.
    pub fn forget_update_error(&mut self)
        ensures
            *final(self) == (SvnApp {
                news: News { update_error: None, ..old(self).news },
                ..*old(self)
            }),
    {
        self.news.update_error = None;
    }
}

// ---------------------------------------------------------------- laws

/// A change of address replaces the front and keeps what follows it; slashes at the end of a front
/// and white space around it do not count. An address with another front is left alone.
pub proof fn law_moves_keep_the_rest(from: Seq<char>, to: Seq<char>, rest: Seq<char>)
    requires
        from.len() > 0,
        to.len() > 0,
    ensures
        moved(from + rest, from, to) == Some(to + rest),
        moved(from + rest, Seq::empty(), to) is None,
        moved(from + rest, from, Seq::empty()) is None,
        !text::begins(rest, from) ==> moved(rest, from, to) is None,
        !text::is_space(from[0]) && !text::is_space(from.last()) && from.last() != '/' ==> front(
            from,
        ) == from && front(from + seq!['/']) == from && front(seq![' '] + from) == from,
{
    let all = from + rest;
    assert(all.subrange(0, from.len() as int) =~= from);
    assert(text::after(all, from.len() as int) =~= rest);
    if !text::is_space(from[0]) && !text::is_space(from.last()) && from.last() != '/' {
        let slashed = from + seq!['/'];
        let spaced = seq![' '] + from;
        assert(text::trim_start(from) == from && text::trim_end(from) == from);
        assert(slashed[0] == from[0] && slashed.last() == '/');
        assert(text::trim_start(slashed) == slashed && text::trim_end(slashed) == slashed);
        assert(slashed.subrange(0, slashed.len() - 1) =~= from);
        assert(text::strip_end(from, '/', '/') == from);
        assert(text::strip_end(slashed, '/', '/') == from);
        assert(spaced.subrange(1, spaced.len() as int) =~= from);
        assert(text::trim_start(spaced) == from);
    }
}

/// The directories that take part are those that are checked, in order, and as many as are counted.
pub proof fn law_checked_directories_take_part(checked: Seq<bool>, n: int)
    requires
        0 <= n <= checked.len() <= usize::MAX,
    ensures
        ({
            let list = taking_part(checked, n);
            &&& list.len() == picked_among(checked, n)
            &&& picked_among(checked, n) == checked.take(n).filter(|c: bool| c).len()
            &&& forall|i: usize| #[trigger] list.contains(i) <==> i < n && checked[i as int]
            &&& forall|j: int, k: int|
                0 <= j < k < list.len() ==> #[trigger] list[j] < #[trigger] list[k]
        }),
    decreases n,
{
    reveal(Seq::filter);
    let list = taking_part(checked, n);
    if n > 0 {
        law_checked_directories_take_part(checked, n - 1);
        assert(checked.take(n).drop_last() =~= checked.take(n - 1));
        assert(checked.take(n).last() == checked[n - 1]);
        let before = taking_part(checked, n - 1);
        let last = (n - 1) as usize;
        assert forall|i: usize| #[trigger] list.contains(i) <==> i < n && checked[i as int] by {
            if before.contains(i) {
                let k = choose|k: int| 0 <= k < before.len() && before[k] == i;
                assert(list[k] == i);
            }
            if list.len() > before.len() {
                assert(list[before.len() as int] == last);
            }
            if list.contains(i) {
                let k = choose|k: int| 0 <= k < list.len() && list[k] == i;
                if k < before.len() {
                    assert(before[k] == i);
                    assert(before.contains(i));
                }
            }
        }
        assert forall|j: int, k: int| 0 <= j < k < list.len() implies #[trigger] list[j]
            < #[trigger] list[k] by {
            assert(list[j] == before[j]);
            assert(before.contains(before[j]));
            if k < before.len() {
                assert(list[k] == before[k]);
            }
        }
    }
}

/// An item that lies below the directory is named by its path below it, separators in front left
/// out; any other goes by its bare name.
pub proof fn law_details_are_named_below_their_directory(
    root: Seq<char>,
    rest: Seq<char>,
    path: Seq<char>,
    name: Seq<char>,
)
    ensures
        rest.len() > 0 && rest[0] != '\\' && rest[0] != '/' ==> detail_name(
            root + seq!['\\'] + rest,
            name,
            root,
        ) == rest && detail_name(root + seq!['/'] + rest, name, root) == rest,
        detail_name(root, name, root) == name,
        !text::begins(path, root) ==> detail_name(path, name, root) == name,
{
    reveal_with_fuel(text::strip_start, 3);
    let n = root.len() as int;
    let a = root + seq!['\\'] + rest;
    let b = root + seq!['/'] + rest;
    assert(a.subrange(0, n) =~= root);
    assert(b.subrange(0, n) =~= root);
    assert(root.subrange(0, n) =~= root);
    assert(text::after(a, n) =~= seq!['\\'] + rest);
    assert(text::after(b, n) =~= seq!['/'] + rest);
    assert(text::after(root, n) =~= Seq::empty());
    assert(text::after(seq!['\\'] + rest, 1) =~= rest);
    assert(text::after(seq!['/'] + rest, 1) =~= rest);
}

} // verus!

