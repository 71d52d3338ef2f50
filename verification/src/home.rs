//! The list of directories: what a row and a card say, and what can be done on them.

use vstd::prelude::*;
use crate::config::{Config, DirConfig};
use crate::model::{DirView, UploadAll};
use crate::state::{save_if, saves, Listing, SvnApp, Wish};
use crate::tasks::hinted;
use crate::text;

verus! {

// ---------------------------------------------------------------- colours

/// The lamp of a directory, as red, green and blue: connected, not connected, busy, unknown.
pub open spec fn lamp_rgb(remote: Option<bool>, busy: bool) -> (u8, u8, u8) {
    match remote {
        Some(true) => (80, 200, 120),
        Some(false) => (240, 100, 100),
        None => if busy {
            (240, 190, 70)
        } else {
            (120, 120, 120)
        },
    }
}

/// The lamp of a directory, as red, green and blue: connected, not connected, busy, unknown.
pub fn lamp(remote: Option<bool>, busy: bool) -> (r: (u8, u8, u8))
    ensures
        r == lamp_rgb(remote, busy),
{
    match remote {
        Some(true) => (80, 200, 120),
        Some(false) => (240, 100, 100),
        None => if busy {
            (240, 190, 70)
        } else {
            (120, 120, 120)
        },
    }
}

/// The colour of the edge of a card, where it has one of its own. Conflicts come first: nothing can
/// be committed before they are settled.
pub open spec fn edge_rgb(view: DirView, busy: bool) -> Option<(u8, u8, u8)> {
    if view.conflicts matches Some(n) && n > 0 {
        Some((255, 80, 160))
    } else if view.remote == Some(false) {
        Some((240, 100, 100))
    } else if busy {
        Some((240, 190, 70))
    } else {
        None
    }
}

/// The colour of the edge of a card, where it has one of its own.
pub fn card_edge(view: &DirView, busy: bool) -> (r: Option<(u8, u8, u8)>)
    ensures
        r == edge_rgb(*view, busy),
{
    let blocked = match view.conflicts {
        Some(n) => n > 0,
        None => false,
    };
    let cut_off = match view.remote {
        Some(up) => !up,
        None => false,
    };
    if blocked {
        Some((255, 80, 160))
    } else if cut_off {
        Some((240, 100, 100))
    } else if busy {
        Some((240, 190, 70))
    } else {
        None
    }
}

/// The colours of a counter on a card: its ground, its digits and its edge. It is green as long as
/// there is nothing to do.
pub fn badge_colors(active: bool) -> (r: ((u8, u8, u8), (u8, u8, u8), (u8, u8, u8)))
    ensures
        r == (if active {
            ((214u8, 154u8, 22u8), (26u8, 20u8, 4u8), (145u8, 104u8, 14u8))
        } else {
            ((56u8, 168u8, 96u8), (250u8, 252u8, 250u8), (38u8, 114u8, 65u8))
        }),
{
    if active {
        ((214, 154, 22), (26, 20, 4), (145, 104, 14))
    } else {
        ((56, 168, 96), (250, 252, 250), (38, 114, 65))
    }
}

// ---------------------------------------------------------------- a row

/// The time of the last check, in brackets; nothing where there was none.
pub open spec fn at_text(checked_at: Seq<char>) -> Seq<char> {
    if checked_at.len() > 0 {
        "（"@ + checked_at + "）"@
    } else {
        Seq::empty()
    }
}

/// What the lamp says.
pub open spec fn lamp_text(view: DirView) -> Seq<char> {
    (if view.remote_msg@.len() == 0 {
        "尚未检测"@
    } else {
        view.remote_msg@
    }) + at_text(view.checked_at@)
}

fn add_time(t: &mut String, checked_at: &str)
    ensures
        final(t)@ == old(t)@ + at_text(checked_at@),
{
    let ghost start = t@;
    if !checked_at.is_empty() {
        t.append("（");
        t.append(checked_at);
        t.append("）");
    }
    assert(t@ =~= start + at_text(checked_at@));
}

/// What the lamp says.
pub fn lamp_tip(view: &DirView) -> (r: String)
    ensures
        r@ == lamp_text(*view),
{
    let mut t = if view.remote_msg.as_str().is_empty() {
        "尚未检测".to_owned()
    } else {
        view.remote_msg.clone()
    };
    add_time(&mut t, view.checked_at.as_str());
    t
}

/// What a row says of the changes; nothing where they are not known.
pub fn changes_note(changed: Option<usize>) -> (r: Option<String>)
    ensures
        match changed {
            None => r is None,
            Some(n) => r matches Some(t) && t@ == (if n > 0 {
                "本地修改 "@ + text::decimal(n as int) + " 项"@
            } else {
                "无本地修改"@
            }),
        },
{
    match changed {
        None => None,
        Some(n) => if n > 0 {
            let n = text::count(n);
            Some(text::join3("本地修改 ", n.as_str(), " 项"))
        } else {
            Some("无本地修改".to_owned())
        },
    }
}

/// What a row says of the conflicts; nothing where there are none or they are not known.
pub fn conflicts_note(conflicts: Option<usize>) -> (r: Option<String>)
    ensures
        match r {
            Some(t) => conflicts matches Some(n) && n > 0 && t@ == "冲突 "@ + text::decimal(n as int)
                + " 项"@,
            None => conflicts matches Some(n) ==> n == 0,
        },
{
    match conflicts {
        Some(n) => if n > 0 {
            let n = text::count(n);
            Some(text::join3("冲突 ", n.as_str(), " 项"))
        } else {
            None
        },
        None => None,
    }
}

/// The working copy holds everything that the server has. Its root may still name an older
/// revision: the revisions in a working copy are mixed.
pub open spec fn up_to_date(view: DirView) -> bool {
    view.out_of_date == Some(0usize) && view.remote_rev@.len() > 0
}

/// Whether the working copy holds everything that the server has.
pub fn is_up_to_date(view: &DirView) -> (r: bool)
    ensures
        r == up_to_date(*view),
{
    let none_behind = match view.out_of_date {
        Some(n) => n == 0,
        None => false,
    };
    none_behind && !view.remote_rev.as_str().is_empty()
}

/// The revision of the working copy. One that is up to date counts as the newest.
pub open spec fn local_text(view: DirView) -> Seq<char> {
    match view.info {
        Some(i) => "本地 r"@ + (if up_to_date(view) {
            view.remote_rev@
        } else {
            i.revision@
        }),
        None => "本地 —"@,
    }
}

/// The revision of the server.
pub open spec fn remote_text(view: DirView) -> Seq<char> {
    if view.remote_rev@.len() == 0 {
        "远端 —"@
    } else {
        "远端 r"@ + view.remote_rev@
    }
}

/// The revision of the working copy.
pub fn local_line(view: &DirView) -> (r: String)
    ensures
        r@ == local_text(*view),
{
    match &view.info {
        Some(i) => if is_up_to_date(view) {
            text::join2("本地 r", view.remote_rev.as_str())
        } else {
            text::join2("本地 r", i.revision.as_str())
        },
        None => "本地 —".to_owned(),
    }
}

/// The revision of the server.
pub fn remote_line(view: &DirView) -> (r: String)
    ensures
        r@ == remote_text(*view),
{
    if view.remote_rev.as_str().is_empty() {
        "远端 —".to_owned()
    } else {
        text::join2("远端 r", view.remote_rev.as_str())
    }
}

/// How a row compares the working copy with the server; nothing where that is not known.
pub fn standing_note(view: &DirView) -> (r: Option<String>)
    ensures
        if up_to_date(*view) {
            r matches Some(t) && t@ == "已是最新"@
        } else if view.out_of_date matches Some(n) && n > 0 {
            r matches Some(t) && t@ == "远端 r"@ + view.remote_rev@ + "（可更新 "@ + text::decimal(
                view.out_of_date->0 as int,
            ) + " 项）"@
        } else {
            r is None
        },
{
    if is_up_to_date(view) {
        return Some("已是最新".to_owned());
    }
    match view.out_of_date {
        Some(n) => if n > 0 {
            let n = text::count(n);
            let mut t = text::join3("远端 r", view.remote_rev.as_str(), "（可更新 ");
            t.append(n.as_str());
            t.append(" 项）");
            Some(t)
        } else {
            None
        },
        None => None,
    }
}

/// The last commit, from the server where it was reached, else from the working copy.
pub open spec fn last_text(view: DirView) -> Option<Seq<char>> {
    match view.info {
        None => None,
        Some(i) => if view.last_rev@.len() > 0 || view.last_author@.len() > 0 {
            if view.last_date@.len() > 0 {
                Some(
                    "服务器"@ + "最后提交 r"@ + view.last_rev@ + " · "@ + view.last_author@ + " · "@
                        + view.last_date@,
                )
            } else {
                None
            }
        } else if i.last_date@.len() > 0 {
            Some(
                "本地"@ + "最后提交 r"@ + i.revision@ + " · "@ + i.last_author@ + " · "@ + i.last_date@,
            )
        } else {
            None
        },
    }
}

fn commit_line(place: &str, rev: &str, author: &str, date: &str) -> (r: Option<String>)
    ensures
        match r {
            Some(t) => date@.len() > 0 && t@ == place@ + "最后提交 r"@ + rev@ + " · "@ + author@ + " · "@
                + date@,
            None => date@.len() == 0,
        },
{
    if date.is_empty() {
        return None;
    }
    let mut t = text::join3(place, "最后提交 r", rev);
    t.append(" · ");
    t.append(author);
    t.append(" · ");
    t.append(date);
    Some(t)
}

/// The last commit, from the server where it was reached, else from the working copy; nothing
/// where its time is not known.
pub fn last_commit(view: &DirView) -> (r: Option<String>)
    ensures
        match r {
            Some(t) => last_text(*view) == Some(t@),
            None => last_text(*view) is None,
        },
{
    match &view.info {
        None => None,
        Some(i) => if !view.last_rev.as_str().is_empty() || !view.last_author.as_str().is_empty() {
            commit_line(
                "服务器",
                view.last_rev.as_str(),
                view.last_author.as_str(),
                view.last_date.as_str(),
            )
        } else {
            commit_line(
                "本地",
                i.revision.as_str(),
                i.last_author.as_str(),
                i.last_date.as_str(),
            )
        },
    }
}

/// What follows the scheme of a web address; nothing for other addresses.
pub open spec fn after_scheme(url: Seq<char>) -> Option<Seq<char>> {
    if text::begins(url, "https://"@) {
        Some(text::after(url, "https://"@.len() as int))
    } else if text::begins(url, "http://"@) {
        Some(text::after(url, "http://"@.len() as int))
    } else {
        None
    }
}

/// The server of a repository, as a row shows it; nothing where the address is not one of the web.
pub fn server_note(root: &str) -> (r: Option<String>)
    ensures
        match r {
            Some(t) => after_scheme(root@) matches Some(rest) && t@ == "仓库 "@ + text::up_to(
                rest,
                '/',
            ),
            None => after_scheme(root@) is None,
        },
{
    let rest = match text::without_prefix(root, "https://") {
        Some(rest) => rest,
        None => match text::without_prefix(root, "http://") {
            Some(rest) => rest,
            None => {
                return None;
            },
        },
    };
    let host = text::before_char(rest.as_str(), '/');
    Some(text::join2("仓库 ", host.as_str()))
}

/// What a row says of a directory whose repository is not known.
pub fn unread_note(view: &DirView) -> (r: &'static str)
    ensures
        r@ == (if view.checked_at@.len() == 0 {
            "未检测"@
        } else {
            "非工作副本或无法读取"@
        }),
{
    if view.checked_at.as_str().is_empty() {
        "未检测"
    } else {
        "非工作副本或无法读取"
    }
}

// ---------------------------------------------------------------- a card

/// A number on a card; a large one would not fit.
pub open spec fn small_text(n: int) -> Seq<char> {
    if n > 999 {
        "999+"@
    } else {
        text::decimal(n)
    }
}

/// A number that may not be known.
pub open spec fn or_zero(n: Option<usize>) -> int {
    match n {
        Some(k) => k as int,
        None => 0,
    }
}

fn known(n: Option<usize>) -> (r: usize)
    ensures
        r == or_zero(n),
{
    match n {
        Some(k) => k,
        None => 0,
    }
}

/// The counter with an arrow before it.
pub fn badge_text(arrow: &str, n: Option<usize>) -> (r: String)
    ensures
        r@ == arrow@ + small_text(or_zero(n)),
{
    let n = known(n);
    if n > 999 {
        text::join2(arrow, "999+")
    } else {
        let t = text::count(n);
        text::join2(arrow, t.as_str())
    }
}

/// What the counter of what the server has says, and whether a press does anything.
pub fn behind_badge(view: &DirView) -> (r: (String, String, bool))
    ensures
        r.0@ == "↓"@ + small_text(or_zero(view.out_of_date)),
        r.1@ == "服务器上有 "@ + text::decimal(or_zero(view.out_of_date))
            + " 项本地还没更新\n点击立即更新该目录"@,
        r.2 == (or_zero(view.out_of_date) > 0),
{
    let n = known(view.out_of_date);
    let t = text::count(n);
    (
        badge_text("↓", view.out_of_date),
        text::join3("服务器上有 ", t.as_str(), " 项本地还没更新\n点击立即更新该目录"),
        n > 0,
    )
}

/// What the counter of the own changes says, and whether a press does anything.
pub fn changes_badge(view: &DirView) -> (r: (String, String, bool))
    ensures
        r.0@ == "↑"@ + small_text(or_zero(view.changed)),
        r.1@ == "本地有 "@ + text::decimal(or_zero(view.changed))
            + " 项待提交（口径同「全部上传」）\n点击打开该目录的提交页"@,
        r.2 == (or_zero(view.changed) > 0),
{
    let n = known(view.changed);
    let t = text::count(n);
    (
        badge_text("↑", view.changed),
        text::join3(
            "本地有 ",
            t.as_str(),
            " 项待提交（口径同「全部上传」）\n点击打开该目录的提交页",
        ),
        n > 0,
    )
}

/// What a card says when it is pointed at.
pub open spec fn card_text(label: Seq<char>, path: Seq<char>, view: DirView) -> Seq<char> {
    label + "\n"@ + path + "\n"@ + (match view.info {
        Some(i) => "仓库："@ + i.url@ + "\n"@,
        None => Seq::empty(),
    }) + (local_text(view) + " · "@ + remote_text(view) + "\n"@) + ("服务器可更新 "@ + text::decimal(
        or_zero(view.out_of_date),
    ) + " 项 · 本地待提交 "@ + text::decimal(or_zero(view.changed)) + " 项\n"@) + (if or_zero(
        view.conflicts,
    ) > 0 {
        "冲突 / 不完整 "@ + text::decimal(or_zero(view.conflicts)) + " 项，必须先人工处理\n"@
    } else {
        Seq::empty()
    }) + (if view.remote_msg@.len() > 0 {
        view.remote_msg@ + at_text(view.checked_at@)
    } else {
        Seq::empty()
    })
}

/// What a card says when it is pointed at.
pub fn card_tip(label: &str, path: &str, view: &DirView) -> (r: String)
    ensures
        r@ == card_text(label@, path@, *view),
{
    let mut t = text::join3(label, "\n", path);
    t.append("\n");
    let ghost one = t@;
    if let Some(i) = &view.info {
        t.append("仓库：");
        t.append(i.url.as_str());
        t.append("\n");
    }
    assert(t@ =~= one + (match view.info {
        Some(i) => "仓库："@ + i.url@ + "\n"@,
        None => Seq::empty(),
    }));
    let ghost two = t@;
    let local = local_line(view);
    let remote = remote_line(view);
    t.append(local.as_str());
    t.append(" · ");
    t.append(remote.as_str());
    t.append("\n");
    assert(t@ =~= two + (local_text(*view) + " · "@ + remote_text(*view) + "\n"@));
    let ghost three = t@;
    let behind = text::count(known(view.out_of_date));
    let changed = text::count(known(view.changed));
    t.append("服务器可更新 ");
    t.append(behind.as_str());
    t.append(" 项 · 本地待提交 ");
    t.append(changed.as_str());
    t.append(" 项\n");
    assert(t@ =~= three + ("服务器可更新 "@ + text::decimal(or_zero(view.out_of_date))
        + " 项 · 本地待提交 "@ + text::decimal(or_zero(view.changed)) + " 项\n"@));
    let ghost four = t@;
    let conflicts = known(view.conflicts);
    if conflicts > 0 {
        let n = text::count(conflicts);
        t.append("冲突 / 不完整 ");
        t.append(n.as_str());
        t.append(" 项，必须先人工处理\n");
    }
    assert(t@ =~= four + (if or_zero(view.conflicts) > 0 {
        "冲突 / 不完整 "@ + text::decimal(or_zero(view.conflicts)) + " 项，必须先人工处理\n"@
    } else {
        Seq::empty()
    }));
    let ghost five = t@;
    if !view.remote_msg.as_str().is_empty() {
        t.append(view.remote_msg.as_str());
        add_time(&mut t, view.checked_at.as_str());
    }
    assert(t@ =~= five + (if view.remote_msg@.len() > 0 {
        view.remote_msg@ + at_text(view.checked_at@)
    } else {
        Seq::empty()
    }));
    t
}

// ---------------------------------------------------------------- the head of the list

/// How many changes the first `n` directories have together, as far as they are known.
pub open spec fn changes_among(dirs: Seq<DirView>, n: int) -> int
    decreases n,
{
    if n <= 0 {
        0
    } else {
        changes_among(dirs, n - 1) + or_zero(dirs[n - 1].changed)
    }
}

/// Those of the first `n` directories that have conflicts, and how many.
pub open spec fn blocked_dirs(dirs: Seq<DirView>, n: int) -> Seq<(usize, usize)>
    decreases n,
{
    if n <= 0 {
        Seq::empty()
    } else if or_zero(dirs[n - 1].conflicts) > 0 {
        blocked_dirs(dirs, n - 1).push(((n - 1) as usize, or_zero(dirs[n - 1].conflicts) as usize))
    } else {
        blocked_dirs(dirs, n - 1)
    }
}

/// The second numbers of the first `n` pairs, added up.
pub open spec fn sum_of(list: Seq<(usize, usize)>, n: int) -> int
    decreases n,
{
    if n <= 0 {
        0
    } else {
        sum_of(list, n - 1) + list[n - 1].1
    }
}

proof fn lemma_sum_grows(list: Seq<(usize, usize)>, a: int, b: int)
    requires
        0 <= a <= b <= list.len(),
    ensures
        sum_of(list, a) <= sum_of(list, b),
    decreases b,
{
    if a < b {
        lemma_sum_grows(list, a, b - 1);
    }
}

proof fn lemma_changes_grow(dirs: Seq<DirView>, a: int, b: int)
    requires
        0 <= a <= b <= dirs.len(),
    ensures
        changes_among(dirs, a) <= changes_among(dirs, b),
    decreases b,
{
    if a < b {
        lemma_changes_grow(dirs, a, b - 1);
    }
}

/// The second numbers of the pairs, added up; nothing where that is too much for a machine word.
pub fn total_of(list: &Vec<(usize, usize)>) -> (r: Option<usize>)
    ensures
        match r {
            Some(n) => n == sum_of(list@, list@.len() as int),
            None => sum_of(list@, list@.len() as int) > usize::MAX,
        },
{
    let mut sum: usize = 0;
    let mut i: usize = 0;
    while i < list.len()
        invariant
            i <= list.len(),
            sum == sum_of(list@, i as int),
        decreases list.len() - i,
    {
        let n = list[i].1;
        if n > usize::MAX - sum {
            proof {
                lemma_sum_grows(list@, i + 1, list@.len() as int);
            }
            return None;
        }
        sum = sum + n;
        i += 1;
    }
    Some(sum)
}

impl SvnApp {
    /// How many changes all directories have together, as far as they are known; nothing where
    /// that is too much for a machine word.
    pub fn total_changes(&self) -> (r: Option<usize>)
        ensures
            match r {
                Some(n) => n == changes_among(self.dirs@, self.dirs@.len() as int),
                None => changes_among(self.dirs@, self.dirs@.len() as int) > usize::MAX,
            },
    {
        let mut sum: usize = 0;
        let mut i: usize = 0;
        while i < self.dirs.len()
            invariant
                i <= self.dirs.len(),
                sum == changes_among(self.dirs@, i as int),
            decreases self.dirs.len() - i,
        {
            let n = known(self.dirs[i].changed);
            if n > usize::MAX - sum {
                proof {
                    lemma_changes_grow(self.dirs@, i + 1, self.dirs@.len() as int);
                }
                return None;
            }
            sum = sum + n;
            i += 1;
        }
        Some(sum)
    }

    /// The directories with conflicts, and how many each of them has.
    pub fn blocked(&self) -> (r: Vec<(usize, usize)>)
        ensures
            r@ == blocked_dirs(self.dirs@, self.dirs@.len() as int),
    {
        let mut list: Vec<(usize, usize)> = Vec::new();
        let mut i: usize = 0;
        while i < self.dirs.len()
            invariant
                i <= self.dirs.len(),
                list@ == blocked_dirs(self.dirs@, i as int),
            decreases self.dirs.len() - i,
        {
            let n = known(self.dirs[i].conflicts);
            if n > 0 {
                list.push((i, n));
            }
            i += 1;
        }
        list
    }

    /// The lines about the directories with conflicts.
    pub open spec fn blocked_lines(self, list: Seq<(usize, usize)>) -> Seq<Seq<char>> {
        Seq::new(
            list.len(),
            |i: int|
                self.label_at(list[i].0 as int) + "："@ + text::decimal(list[i].1 as int) + " 项"@,
        )
    }

    /// What is said of the directories with conflicts when they are pointed at.
    pub fn blocked_tip(&self, list: &Vec<(usize, usize)>) -> (r: String)
        ensures
            r@ == "必须人工处理才能继续提交的条目（冲突 / 不完整），按目录列：\n"@ + text::joined(
                self.blocked_lines(list@),
                "\n"@,
            ) + "\n\n点击打开第一个有冲突目录的提交页。"@,
    {
        let mut lines: Vec<String> = Vec::new();
        let mut i: usize = 0;
        while i < list.len()
            invariant
                i <= list.len(),
                text::views(lines@) == self.blocked_lines(list@).take(i as int),
            decreases list.len() - i,
        {
            let ghost before = lines@;
            let label = self.dir_label(list[i].0);
            let n = text::count(list[i].1);
            let mut t = text::join3(label.as_str(), "：", n.as_str());
            t.append(" 项");
            lines.push(t);
            i += 1;
            assert(text::views(lines@) =~= text::views(before).push(t@));
            assert(text::views(lines@) =~= self.blocked_lines(list@).take(i as int));
        }
        assert(text::views(lines@) =~= self.blocked_lines(list@));
        let all = text::join_with(&lines, "\n");
        text::join3(
            "必须人工处理才能继续提交的条目（冲突 / 不完整），按目录列：\n",
            all.as_str(),
            "\n\n点击打开第一个有冲突目录的提交页。",
        )
    }
}

/// The head of the list.
pub fn list_title(count: usize, changes: usize) -> (r: String)
    ensures
        r@ == "目录列表（"@ + text::decimal(count as int) + " 个，本地修改合计 "@ + text::decimal(
            changes as int,
        ) + " 项）"@,
{
    let c = text::count(count);
    let n = text::count(changes);
    let mut t = text::join3("目录列表（", c.as_str(), " 个，本地修改合计 ");
    t.append(n.as_str());
    t.append(" 项）");
    t
}

/// What is said of all conflicts together.
pub fn blocked_line(total: usize) -> (r: String)
    ensures
        r@ == "，"@ + text::decimal(total as int) + " 项冲突待处理"@,
{
    let n = text::count(total);
    text::join3("，", n.as_str(), " 项冲突待处理")
}

/// The list of directories with conflicts names each directory that has some, and no other.
pub proof fn law_blocked_dirs_have_conflicts(dirs: Seq<DirView>, n: int, k: int)
    requires
        0 <= n <= dirs.len(),
        dirs.len() <= usize::MAX,
        0 <= k < blocked_dirs(dirs, n).len(),
    ensures
        ({
            let (i, count) = blocked_dirs(dirs, n)[k];
            i < n && count > 0 && dirs[i as int].conflicts == Some(count)
        }),
    decreases n,
{
    if n > 0 && k < blocked_dirs(dirs, n - 1).len() {
        law_blocked_dirs_have_conflicts(dirs, n - 1, k);
    }
}

/// No directory with conflicts is left out of the list of those.
pub proof fn law_conflicts_are_shown(dirs: Seq<DirView>, n: int, i: int)
    requires
        0 <= i < n <= dirs.len(),
        dirs.len() <= usize::MAX,
        dirs[i].conflicts matches Some(c) && c > 0,
    ensures
        exists|k: int|
            0 <= k < blocked_dirs(dirs, n).len() && (#[trigger] blocked_dirs(dirs, n)[k]).0 == i,
    decreases n,
{
    if i == n - 1 {
        assert(blocked_dirs(dirs, n)[blocked_dirs(dirs, n).len() - 1].0 == i);
    } else {
        law_conflicts_are_shown(dirs, n - 1, i);
        let head = blocked_dirs(dirs, n - 1);
        let k = choose|k: int| 0 <= k < head.len() && (#[trigger] head[k]).0 == i;
        assert(blocked_dirs(dirs, n)[k] == head[k]);
    }
}

// ---------------------------------------------------------------- what can be done

/// What becomes of an alias or a filter that was being typed.
#[derive(Clone, Copy, Debug, PartialEq, Eq, Structural)]
pub enum Typed {
    /// It is given up.
    Cancelled,
    /// It holds.
    Entered,
}

impl SvnApp {
    /// Selects a directory.
    pub fn select(&mut self, index: usize)
        ensures
            *final(self) == (SvnApp {
                list: Listing { selected: Some(index), confirm_remove: None, ..old(self).list },
                ..*old(self)
            }),
    {
        self.list.selected = Some(index);
        self.list.confirm_remove = None;
    }

    /// The first press on the button that removes a directory asks for another.
    pub open spec fn asks_again(self, index: usize, menu: bool, after: SvnApp) -> bool {
        &&& after.hint@ == (if menu {
            "再次展开「+」点「确认移除」可把该目录从列表移除（不会删除文件）"@
        } else {
            "再次点击「确认移除」可把该目录从列表移除（不会删除文件）"@
        })
        &&& after == (SvnApp {
            hint: after.hint,
            list: Listing { confirm_remove: Some(index), ..self.list },
            ..self
        })
    }

    /// The button that removes a directory was pressed, in its row or in its
    /// `menu`. Returns whether the directory is to be removed: only where this was the second
    /// press on the same directory.
    pub fn press_remove(&mut self, index: usize, menu: bool) -> (r: bool)
        ensures
            r == (old(self).list.confirm_remove == Some(index)),
            r ==> *final(self) == *old(self),
            !r ==> old(self).asks_again(index, menu, *final(self)),
    {
        let again = match self.list.confirm_remove {
            Some(i) => i == index,
            None => false,
        };
        if again {
            return true;
        }
        self.list.confirm_remove = Some(index);
        if menu {
            self.hint("再次展开「+」点「确认移除」可把该目录从列表移除（不会删除文件）");
        } else {
            self.hint("再次点击「确认移除」可把该目录从列表移除（不会删除文件）");
        }
        false
    }

    /// Begins to type the alias of a directory.
    pub fn start_alias(&mut self, index: usize)
        requires
            index < old(self).cfg.dirs@.len(),
        ensures
            *final(self) == (SvnApp {
                list: Listing {
                    edit_label: Some(index),
                    label_buf: old(self).cfg.dirs@[index as int].label,
                    label_focus: true,
                    ..old(self).list
                },
                ..*old(self)
            }),
    {
        self.list.edit_label = Some(index);
        self.list.label_buf = self.cfg.dirs[index].label.clone();
        self.list.label_focus = true;
    }

    /// From `self` to `after`: the alias that was typed holds. `other` tells whether it is another.
    pub open spec fn alias_entered(self, index: usize, after: SvnApp, other: bool) -> bool {
        let name = text::trim(self.list.label_buf@);
        let before = self.cfg.dirs@[index as int];
        &&& other == (before.label@ != name)
        &&& if other {
            &&& after.cfg.dirs@.len() == self.cfg.dirs@.len()
            &&& after.cfg.dirs@[index as int].label@ == name
            &&& after.cfg.dirs@ == self.cfg.dirs@.update(
                index as int,
                DirConfig { label: after.cfg.dirs@[index as int].label, ..before },
            )
            &&& after.hint@ == (if name.len() == 0 {
                "已清除别名，列表改为显示文件夹名"@
            } else {
                "别名已改为："@ + name
            })
            &&& after == (SvnApp {
                cfg: Config { dirs: after.cfg.dirs, ..self.cfg },
                hint: after.hint,
                list: Listing { edit_label: None, ..self.list },
                ..self
            })
        } else {
            after == (SvnApp { list: Listing { edit_label: None, ..self.list }, ..self })
        }
    }

    /// The typing of an alias is over. Returns what to do next.
    pub fn end_alias(&mut self, index: usize, typed: Typed) -> (r: Vec<Wish>)
        requires
            old(self).wf(),
            index < old(self).cfg.dirs@.len(),
        ensures
            final(self).wf(),
            match typed {
                Typed::Cancelled => {
                    &&& r@.len() == 0
                    &&& final(self).hint@ == "已取消修改别名"@
                    &&& *final(self) == (SvnApp {
                        hint: final(self).hint,
                        list: Listing { edit_label: None, ..old(self).list },
                        ..*old(self)
                    })
                },
                Typed::Entered => exists|other: bool| #[trigger]
                    old(self).alias_entered(index, *final(self), other) && r@ == saves(
                        other,
                        false,
                    ),
            },
    {
        self.list.edit_label = None;
        match typed {
            Typed::Cancelled => {
                self.hint("已取消修改别名");
                save_if(false, false)
            },
            Typed::Entered => {
                let name = text::trimmed(self.list.label_buf.as_str());
                if text::same(self.cfg.dirs[index].label.as_str(), name.as_str()) {
                    assert(old(self).alias_entered(index, *self, false));
                    return save_if(false, false);
                }
                let t = if name.as_str().is_empty() {
                    "已清除别名，列表改为显示文件夹名".to_owned()
                } else {
                    text::join2("别名已改为：", name.as_str())
                };
                self.hint = t;
                set_label(&mut self.cfg.dirs, index, name);
                assert(old(self).alias_entered(index, *self, true));
                save_if(true, false)
            },
        }
    }

    /// Begins to type which names a comparison leaves out.
    pub fn start_filter(&mut self, index: usize)
        requires
            index < old(self).cfg.dirs@.len(),
        ensures
            *final(self) == (SvnApp {
                list: Listing {
                    edit_filter: Some(index),
                    filter_buf: old(self).cfg.dirs@[index as int].bc_filter,
                    filter_focus: true,
                    ..old(self).list
                },
                ..*old(self)
            }),
    {
        self.list.edit_filter = Some(index);
        self.list.filter_buf = self.cfg.dirs[index].bc_filter.clone();
        self.list.filter_focus = true;
    }

    /// From `self` to `after`: the filter that was typed holds. `other` tells whether it is
    /// another.
    pub open spec fn filter_entered(self, index: usize, after: SvnApp, other: bool) -> bool {
        let filter = text::trim(self.list.filter_buf@);
        let before = self.cfg.dirs@[index as int];
        &&& other == (before.bc_filter@ != filter)
        &&& after.hint@ == (if filter.len() == 0 {
            "已清空对比筛选条件，将退回 Beyond Compare 记录里的值"@
        } else {
            "对比筛选条件已保存："@ + filter
        })
        &&& if other {
            &&& after.cfg.dirs@.len() == self.cfg.dirs@.len()
            &&& after.cfg.dirs@[index as int].bc_filter@ == filter
            &&& after.cfg.dirs@ == self.cfg.dirs@.update(
                index as int,
                DirConfig { bc_filter: after.cfg.dirs@[index as int].bc_filter, ..before },
            )
        } else {
            after.cfg == self.cfg
        }
        &&& after == (SvnApp {
            cfg: Config { dirs: after.cfg.dirs, ..self.cfg },
            hint: after.hint,
            list: Listing { edit_filter: None, ..self.list },
            ..self
        })
    }

    /// The typing of a filter is over. Returns what to do next.
    pub fn end_filter(&mut self, index: usize, typed: Typed) -> (r: Vec<Wish>)
        requires
            old(self).wf(),
            index < old(self).cfg.dirs@.len(),
        ensures
            final(self).wf(),
            match typed {
                Typed::Cancelled => {
                    &&& r@.len() == 0
                    &&& final(self).hint@ == "已取消修改对比筛选条件"@
                    &&& *final(self) == (SvnApp {
                        hint: final(self).hint,
                        list: Listing { edit_filter: None, ..old(self).list },
                        ..*old(self)
                    })
                },
                Typed::Entered => exists|other: bool| #[trigger]
                    old(self).filter_entered(index, *final(self), other) && r@ == saves(
                        other,
                        false,
                    ),
            },
    {
        self.list.edit_filter = None;
        match typed {
            Typed::Cancelled => {
                self.hint("已取消修改对比筛选条件");
                save_if(false, false)
            },
            Typed::Entered => {
                let filter = text::trimmed(self.list.filter_buf.as_str());
                let t = if filter.as_str().is_empty() {
                    "已清空对比筛选条件，将退回 Beyond Compare 记录里的值".to_owned()
                } else {
                    text::join2("对比筛选条件已保存：", filter.as_str())
                };
                self.hint = t;
                if text::same(self.cfg.dirs[index].bc_filter.as_str(), filter.as_str()) {
                    assert(old(self).filter_entered(index, *self, false));
                    return save_if(false, false);
                }
                set_filter(&mut self.cfg.dirs, index, filter);
                assert(old(self).filter_entered(index, *self, true));
                save_if(true, false)
            },
        }
    }

    /// Binds a directory to the one that it is compared with.
    pub fn bind_target(&mut self, index: usize, target: String) -> (r: Vec<Wish>)
        requires
            old(self).wf(),
            index < old(self).cfg.dirs@.len(),
        ensures
            final(self).wf(),
            r@ == saves(true, false),
            final(self).hint@ == "已绑定对比对象："@ + target@,
            final(self).cfg.dirs@ == old(self).cfg.dirs@.update(
                index as int,
                DirConfig { bc_target: target, ..old(self).cfg.dirs@[index as int] },
            ),
            *final(self) == (SvnApp {
                cfg: Config { dirs: final(self).cfg.dirs, ..old(self).cfg },
                hint: final(self).hint,
                ..*old(self)
            }),
    {
        let t = text::join2("已绑定对比对象：", target.as_str());
        self.hint = t;
        set_target(&mut self.cfg.dirs, index, target);
        save_if(true, false)
    }

    /// Gives the binding of a directory up.
    pub fn unbind_target(&mut self, index: usize) -> (r: Vec<Wish>)
        requires
            old(self).wf(),
            index < old(self).cfg.dirs@.len(),
        ensures
            final(self).wf(),
            r@ == saves(true, false),
            final(self).hint@ == "已解除绑定，Beyond Compare 退回按对比记录匹配"@,
            final(self).cfg.dirs@.len() == old(self).cfg.dirs@.len(),
            final(self).cfg.dirs@[index as int].bc_target@.len() == 0,
            final(self).cfg.dirs@ == old(self).cfg.dirs@.update(
                index as int,
                DirConfig {
                    bc_target: final(self).cfg.dirs@[index as int].bc_target,
                    ..old(self).cfg.dirs@[index as int]
                },
            ),
            *final(self) == (SvnApp {
                cfg: Config { dirs: final(self).cfg.dirs, ..old(self).cfg },
                hint: final(self).hint,
                ..*old(self)
            }),
    {
        self.hint("已解除绑定，Beyond Compare 退回按对比记录匹配");
        set_target(&mut self.cfg.dirs, index, String::new());
        save_if(true, false)
    }

    /// The address of the repository of a directory, to be copied; nothing where it is not known.
    pub fn copy_url(&mut self, index: usize) -> (r: Option<String>)
        ensures
            if index < old(self).dirs@.len() && old(self).dirs@[index as int].info is Some {
                &&& r matches Some(t) && t@ == old(self).dirs@[index as int].info->0.url@
                &&& hinted(*old(self), "已复制仓库地址到剪贴板"@, *final(self))
            } else {
                r is None && hinted(*old(self), "尚未取得仓库地址，请先刷新"@, *final(self))
            },
    {
        if index < self.dirs.len() {
            let url = match &self.dirs[index].info {
                Some(i) => Some(i.url.clone()),
                None => None,
            };
            if url.is_some() {
                self.hint("已复制仓库地址到剪贴板");
                return url;
            }
        }
        self.hint("尚未取得仓库地址，请先刷新");
        None
    }

    /// Shows the directories as cards or as rows. Returns what to do next.
    pub fn set_compact(&mut self, compact: bool) -> (r: Vec<Wish>)
        ensures
            r@ == saves(compact != old(self).cfg.home_compact, false),
            compact == old(self).cfg.home_compact ==> *final(self) == *old(self),
            compact != old(self).cfg.home_compact ==> final(self).hint@ == (if compact {
                "已切到简约样式：目录显示为卡片"@
            } else {
                "已切回详细样式"@
            }) && *final(self) == (SvnApp {
                cfg: Config { home_compact: compact, ..old(self).cfg },
                hint: final(self).hint,
                ..*old(self)
            }),
    {
        if compact == self.cfg.home_compact {
            return save_if(false, false);
        }
        self.cfg.home_compact = compact;
        if compact {
            self.hint("已切到简约样式：目录显示为卡片");
        } else {
            self.hint("已切回详细样式");
        }
        save_if(true, false)
    }

    /// What the head of the list says about pressing.
    pub fn press_note(&self) -> (r: &'static str)
        ensures
            r@ == (if self.cfg.home_compact {
                "单击卡片选中，双击打开目录"@
            } else {
                "单击整行选中，双击打开目录"@
            }),
    {
        if self.cfg.home_compact {
            "单击卡片选中，双击打开目录"
        } else {
            "单击整行选中，双击打开目录"
        }
    }

    /// Opens the dialog that uploads all directories. All of them take part at first.
    pub fn open_upload_all(&mut self)
        ensures
            final(self).upload_all matches Some(u) && u.message@.len() == 0 && !u.confirm && u.focus
                && u.detail is None && u.checked@ == Seq::new(
                old(self).cfg.dirs@.len(),
                |i: int| true,
            ),
            *final(self) == (SvnApp { upload_all: final(self).upload_all, ..*old(self) }),
    {
        let n = self.cfg.dirs.len();
        let mut checked: Vec<bool> = Vec::new();
        while checked.len() < n
            invariant
                checked.len() <= n,
                forall|i: int| 0 <= i < checked@.len() ==> checked@[i],
            decreases n - checked.len(),
        {
            checked.push(true);
        }
        assert(checked@ =~= Seq::new(n as nat, |i: int| true));
        self.upload_all = Some(
            UploadAll {
                message: String::new(),
                confirm: false,
                focus: true,
                checked,
                detail: None,
            },
        );
    }
}

fn set_label(dirs: &mut Vec<DirConfig>, index: usize, label: String)
    requires
        index < old(dirs)@.len(),
    ensures
        final(dirs)@ == old(dirs)@.update(
            index as int,
            DirConfig { label, ..old(dirs)@[index as int] },
        ),
{
    dirs[index].label = label;
}

fn set_filter(dirs: &mut Vec<DirConfig>, index: usize, bc_filter: String)
    requires
        index < old(dirs)@.len(),
    ensures
        final(dirs)@ == old(dirs)@.update(
            index as int,
            DirConfig { bc_filter, ..old(dirs)@[index as int] },
        ),
{
    dirs[index].bc_filter = bc_filter;
}

fn set_target(dirs: &mut Vec<DirConfig>, index: usize, bc_target: String)
    requires
        index < old(dirs)@.len(),
    ensures
        final(dirs)@ == old(dirs)@.update(
            index as int,
            DirConfig { bc_target, ..old(dirs)@[index as int] },
        ),
{
    dirs[index].bc_target = bc_target;
}

/// Nothing is removed by a single press: after a first press the second one, on the same
/// directory, is the one that counts.
pub proof fn law_removing_takes_two_presses(a: SvnApp, index: usize, menu: bool, b: SvnApp)
    requires
        a.asks_again(index, menu, b),
    ensures
        b.cfg.dirs == a.cfg.dirs,
        b.list.confirm_remove == Some(index),
{
}

// ---------------------------------------------------------------- laws

/// The changes of all directories are the changes of each added up; where they are not known, they
/// count as none.
pub proof fn law_changes_add_up(dirs: Seq<DirView>, n: int)
    requires
        0 <= n <= dirs.len(),
    ensures
        changes_among(dirs, n) == dirs.take(n).fold_left(
            0int,
            |sum: int, d: DirView|
                sum + match d.changed {
                    Some(k) => k as int,
                    None => 0,
                },
        ),
    decreases n,
{
    if n > 0 {
        law_changes_add_up(dirs, n - 1);
        assert(dirs.take(n).drop_last() =~= dirs.take(n - 1));
        assert(dirs.take(n).last() == dirs[n - 1]);
    }
}

/// The directories with conflicts are listed in order, each with its own number of them, and no
/// others.
pub proof fn law_blocked_directories_in_order(dirs: Seq<DirView>, n: int)
    requires
        0 <= n <= dirs.len() <= usize::MAX,
    ensures
        ({
            let list = blocked_dirs(dirs, n);
            &&& forall|e: (usize, usize)| #[trigger]
                list.contains(e) <==> e.0 < n && dirs[e.0 as int].conflicts == Some(e.1) && e.1 > 0
            &&& forall|j: int, k: int|
                0 <= j < k < list.len() ==> (#[trigger] list[j]).0 < (#[trigger] list[k]).0
        }),
    decreases n,
{
    let list = blocked_dirs(dirs, n);
    if n > 0 {
        law_blocked_directories_in_order(dirs, n - 1);
        let before = blocked_dirs(dirs, n - 1);
        assert forall|e: (usize, usize)| #[trigger] list.contains(e) <==> e.0 < n
            && dirs[e.0 as int].conflicts == Some(e.1) && e.1 > 0 by {
            if before.contains(e) {
                let k = choose|k: int| 0 <= k < before.len() && before[k] == e;
                assert(list[k] == e);
            }
            if list.len() > before.len() {
                assert(list[before.len() as int].0 == n - 1);
                assert(dirs[n - 1].conflicts == Some(list[before.len() as int].1));
            }
            if list.contains(e) {
                let k = choose|k: int| 0 <= k < list.len() && list[k] == e;
                if k < before.len() {
                    assert(before[k] == e);
                    assert(before.contains(e));
                }
            }
            if e.0 == n - 1 && dirs[n - 1].conflicts == Some(e.1) && e.1 > 0 {
                assert(list[before.len() as int] == e);
            }
        }
        assert forall|j: int, k: int| 0 <= j < k < list.len() implies (#[trigger] list[j]).0 < (
        #[trigger] list[k]).0 by {
            assert(list[j] == before[j]);
            assert(before.contains(before[j]));
            if k < before.len() {
                assert(list[k] == before[k]);
            }
        }
    }
}

/// A working copy counts as being at the server's revision exactly where the server is known to
/// have nothing newer; else its own revision is shown.
pub proof fn law_local_revisions(view: DirView)
    ensures
        view.info matches Some(i) ==> local_text(view) == if view.out_of_date == Some(0usize)
            && view.remote_rev@.len() > 0 {
            "本地 r"@ + view.remote_rev@
        } else {
            "本地 r"@ + i.revision@
        },
        view.info is None ==> local_text(view) == "本地 —"@,
        view.remote_rev@.len() > 0 ==> remote_text(view) == "远端 r"@ + view.remote_rev@,
{
}

/// Conflicts show first, whatever else there is; then a lost connection; then that something runs.
pub proof fn law_conflicts_show_first(view: DirView, busy: bool, n: usize)
    ensures
        view.conflicts == Some(n) && n > 0 ==> edge_rgb(view, busy) == Some((255u8, 80u8, 160u8)),
        (view.conflicts is None || view.conflicts == Some(0usize)) && view.remote == Some(false)
            ==> edge_rgb(view, busy) == Some((240u8, 100u8, 100u8)),
        (view.conflicts is None || view.conflicts == Some(0usize)) && view.remote != Some(false)
            ==> (edge_rgb(view, busy) is Some <==> busy),
{
}

/// The server of an address of the web is what stands between the scheme and the next slash.
pub proof fn law_servers_follow_the_scheme(host: Seq<char>, way: Seq<char>)
    requires
        !host.contains('/'),
        way.len() > 0 ==> way[0] == '/',
    ensures
        after_scheme("https://"@ + (host + way)) == Some(host + way),
        after_scheme("http://"@ + (host + way)) == Some(host + way),
        text::up_to(host + way, '/') == host,
{
    reveal_strlit("https://");
    reveal_strlit("http://");
    let s = "https://"@ + (host + way);
    let p = "http://"@ + (host + way);
    assert(s.subrange(0, 8) =~= "https://"@);
    assert(p.subrange(0, 7) =~= "http://"@);
    if text::begins(p, "https://"@) {
        assert(p.subrange(0, 8)[4] == "https://"@[4]);
    }
    assert(text::after(s, 8) =~= host + way);
    assert(text::after(p, 7) =~= host + way);
    let all = host + way;
    assert forall|j: int| 0 <= j < host.len() implies #[trigger] all[j] != '/' by {
        assert(all[j] == host[j]);
        assert(host.contains(host[j]));
    }
    if way.len() > 0 {
        assert(all[host.len() as int] == way[0]);
    }
    text::lemma_index_of_is(all, '/', host.len() as int);
    assert(text::up_to(all, '/') =~= host);
}

/// A number on a card is written out as long as it has three digits; every larger one reads the
/// same.
pub proof fn law_large_numbers_read_the_same(m: int, n: int)
    ensures
        0 <= n <= 999 ==> small_text(n) == text::decimal(n),
        n >= 1000 && m >= 1000 ==> small_text(n) == small_text(m),
        n >= 1000 ==> small_text(n) == seq!['9', '9', '9', '+'],
{
    reveal_strlit("999+");
    assert("999+"@ =~= seq!['9', '9', '9', '+']);
}

/// A name or a filter that was typed holds for the one directory that it was typed for, without the
/// white space around it, and is told to be another exactly where it is. Nothing else in the list
/// changes, and the typing is over.
pub proof fn law_typed_names_hold_for_one(a: SvnApp, index: usize, b: SvnApp, other: bool)
    requires
        index < a.cfg.dirs@.len(),
    ensures
        a.alias_entered(index, b, other) ==> {
            &&& b.cfg.dirs@.len() == a.cfg.dirs@.len()
            &&& b.cfg.dirs@[index as int].label@ == text::trim(a.list.label_buf@)
            &&& b.cfg.dirs@[index as int].path == a.cfg.dirs@[index as int].path
            &&& b.cfg.dirs@[index as int].bc_filter == a.cfg.dirs@[index as int].bc_filter
            &&& forall|i: int|
                0 <= i < a.cfg.dirs@.len() && i != index ==> #[trigger] b.cfg.dirs@[i]
                    == a.cfg.dirs@[i]
            &&& other <==> b.cfg.dirs@[index as int].label@ != a.cfg.dirs@[index as int].label@
            &&& b.list.edit_label is None && b.list.edit_filter == a.list.edit_filter
            &&& !other ==> b.hint == a.hint
        },
        a.filter_entered(index, b, other) ==> {
            &&& b.cfg.dirs@.len() == a.cfg.dirs@.len()
            &&& b.cfg.dirs@[index as int].bc_filter@ == text::trim(a.list.filter_buf@)
            &&& b.cfg.dirs@[index as int].path == a.cfg.dirs@[index as int].path
            &&& b.cfg.dirs@[index as int].label == a.cfg.dirs@[index as int].label
            &&& forall|i: int|
                0 <= i < a.cfg.dirs@.len() && i != index ==> #[trigger] b.cfg.dirs@[i]
                    == a.cfg.dirs@[i]
            &&& other <==> b.cfg.dirs@[index as int].bc_filter@
                != a.cfg.dirs@[index as int].bc_filter@
            &&& b.list.edit_filter is None && b.list.edit_label == a.list.edit_label
        },
{
}

/// The last commit is that of the server where the server told of one, and else that of the working
/// copy; it is shown only where its date is known, with that date at the end.
pub proof fn law_last_commit_is_the_servers(view: DirView, i: crate::svn::WcInfo)
    requires
        view.info == Some(i),
    ensures
        ({
            let told = view.last_rev@.len() > 0 || view.last_author@.len() > 0;
            &&& told ==> (last_text(view) is Some <==> view.last_date@.len() > 0)
            &&& !told ==> (last_text(view) is Some <==> i.last_date@.len() > 0)
            &&& told ==> (last_text(view) matches Some(t) ==> text::ends(t, view.last_date@)
                && text::occurs(t, view.last_rev@) && text::occurs(t, view.last_author@))
            &&& !told ==> (last_text(view) matches Some(t) ==> text::ends(t, i.last_date@)
                && text::occurs(t, i.revision@) && text::occurs(t, i.last_author@))
        }),
{
    let told = view.last_rev@.len() > 0 || view.last_author@.len() > 0;
    if let Some(t) = last_text(view) {
        let (head, rev, who, when) = if told {
            ("服务器"@ + "最后提交 r"@, view.last_rev@, view.last_author@, view.last_date@)
        } else {
            ("本地"@ + "最后提交 r"@, i.revision@, i.last_author@, i.last_date@)
        };
        let by = " · "@;
        assert(t =~= head + rev + by + who + by + when);
        assert(t.subrange(t.len() - when.len(), t.len() as int) =~= when);
        text::lemma_occurs_between(head, rev, by + who + by + when);
        assert(t =~= head + rev + (by + who + by + when));
        text::lemma_occurs_between(head + rev + by, who, by + when);
        assert(t =~= head + rev + by + who + (by + when));
    }
}

} // verus!

