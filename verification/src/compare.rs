//! Comparing with an outside program: which pair of directories or files it is shown, and on which
//! side.

use vstd::prelude::*;
use crate::client::Svn;
use crate::config::{Config, DirConfig};
use crate::model::Level;
use crate::path;
use crate::results::said;
use crate::state::{pushed, save_if, saves, SvnApp, Wish};
use crate::tasks::hinted;
use crate::text;

verus! {

/// A comparison that the outside program has saved.
#[derive(Debug)]
pub struct BcSession {
    pub name: String,
    pub left: String,
    pub right: String,
    /// Which names it leaves out.
    pub filter: String,
    /// It compares directories, not files.
    pub folder: bool,
}

/// What the outside program is given: two paths, one or none, and its options.
#[derive(Debug)]
pub struct Compare {
    pub targets: Vec<String>,
    pub switches: Vec<String>,
}

impl Compare {
    /// The program opens with nothing to compare.
    pub open spec fn is_bare(self) -> bool {
        self.targets@.len() == 0 && self.switches@.len() == 0
    }
}

fn bare() -> (r: Compare)
    ensures
        r.is_bare(),
{
    Compare { targets: Vec::new(), switches: Vec::new() }
}

// ---------------------------------------------------------------- sides

/// The server's and the local side, left one first. The settings say where the server's side
/// stands.
pub open spec fn ordered(server: Seq<char>, local: Seq<char>, side: Seq<char>) -> (
    Seq<char>,
    Seq<char>,
) {
    if side == "right"@ {
        (local, server)
    } else {
        (server, local)
    }
}

/// The server's and the local side, left one first.
pub fn order_sides(server: &str, local: &str, side: &str) -> (r: (String, String))
    ensures
        (r.0@, r.1@) == ordered(server@, local@, side@),
{
    if text::same(side, "right") {
        (local.to_owned(), server.to_owned())
    } else {
        (server.to_owned(), local.to_owned())
    }
}

/// A path without the separators at its end.
pub open spec fn bare_end(s: Seq<char>) -> Seq<char> {
    text::strip_end(s, '\\', '/')
}

/// The quotation marks around a text are dropped.
pub open spec fn unmarked(s: Seq<char>) -> Seq<char> {
    text::strip_start(text::strip_end(s, '"', '"'), '"', '"')
}

fn drop_marks(s: &str) -> (r: String)
    ensures
        r@ == unmarked(s@),
{
    let e = text::stripped_end(s, '"', '"');
    text::stripped_start(e.as_str(), '"', '"')
}

/// The record compares these two directories.
pub open spec fn pairs(s: BcSession, here: Seq<char>, there: Seq<char>) -> bool {
    ||| text::same_ascii(s.left@, there) && text::same_ascii(s.right@, here)
    ||| text::same_ascii(s.left@, here) && text::same_ascii(s.right@, there)
}

/// Record `i` is the best one for two directories: the first that leaves names out, or the first at
/// all where none does.
pub open spec fn is_best(list: Seq<BcSession>, here: Seq<char>, there: Seq<char>, i: int) -> bool {
    &&& 0 <= i < list.len()
    &&& pairs(list[i], here, there)
    &&& forall|k: int|
        0 <= k < list.len() && #[trigger] pairs(list[k], here, there) ==> if list[i].filter@.len()
            > 0 {
            k < i ==> list[k].filter@.len() == 0
        } else {
            k >= i && list[k].filter@.len() == 0
        }
}

/// The best record for two directories; none where no record compares them.
pub fn bound_session(list: &Vec<BcSession>, here: &str, there: &str) -> (r: Option<usize>)
    ensures
        match r {
            Some(i) => is_best(list@, here@, there@, i as int),
            None => forall|k: int|
                0 <= k < list@.len() ==> !#[trigger] pairs(list@[k], here@, there@),
        },
{
    let mut best: Option<usize> = None;
    let mut i: usize = 0;
    while i < list.len()
        invariant
            i <= list.len(),
            match best {
                Some(b) => {
                    &&& b < i
                    &&& pairs(list@[b as int], here@, there@)
                    &&& forall|k: int|
                        0 <= k < i && #[trigger] pairs(list@[k], here@, there@)
                            ==> if list@[b as int].filter@.len() > 0 {
                            k < b ==> list@[k].filter@.len() == 0
                        } else {
                            k >= b && list@[k].filter@.len() == 0
                        }
                },
                None => forall|k: int|
                    0 <= k < i ==> !#[trigger] pairs(list@[k], here@, there@),
            },
        decreases list.len() - i,
    {
        let s = &list[i];
        let same = (text::equal_ignoring_case(s.left.as_str(), there) && text::equal_ignoring_case(
            s.right.as_str(),
            here,
        )) || (text::equal_ignoring_case(s.left.as_str(), here) && text::equal_ignoring_case(
            s.right.as_str(),
            there,
        ));
        assert(same == pairs(list@[i as int], here@, there@));
        if same {
            let better = match best {
                None => true,
                Some(b) => list[b].filter.as_str().is_empty() && !s.filter.as_str().is_empty(),
            };
            if better {
                best = Some(i);
            }
        }
        i += 1;
    }
    best
}

/// The path names a server's copy.
pub open spec fn names_server(p: Seq<char>) -> bool {
    text::occurs(Seq::new(p.len(), |i: int| text::ascii_lower(p[i])), "server"@)
}

/// Whether the path names a server's copy.
pub fn looks_like_server(p: &str) -> (r: bool)
    ensures
        r == names_server(p@),
{
    let chars = text::chars_of(p);
    let mut low: Vec<char> = Vec::new();
    let mut i: usize = 0;
    let ghost want = Seq::new(p@.len(), |i: int| text::ascii_lower(p@[i]));
    while i < chars.len()
        invariant
            i <= chars.len(),
            chars@ == p@,
            want == Seq::new(p@.len(), |i: int| text::ascii_lower(p@[i])),
            low@ == want.take(i as int),
        decreases chars.len() - i,
    {
        low.push(text::lower_ascii(chars[i]));
        i += 1;
        assert(low@ =~= want.take(i as int));
    }
    assert(low@ =~= want);
    let t = text::string_of(&low);
    text::contains(t.as_str(), "server")
}

/// The server's side of a record; nothing where it cannot be told. A bound directory is it;
/// otherwise the one side that names a server is.
pub open spec fn server_side(s: BcSession, here: Seq<char>, bound: bool) -> Option<Seq<char>> {
    if bound {
        if text::same_ascii(s.left@, here) {
            Some(s.left@)
        } else if text::same_ascii(s.right@, here) {
            Some(s.right@)
        } else {
            None
        }
    } else if names_server(s.left@) != names_server(s.right@) {
        Some(
            if names_server(s.left@) {
                s.left@
            } else {
                s.right@
            },
        )
    } else {
        None
    }
}

/// The two sides of a record, left one first. Where the server's side cannot be told they stay as
/// they were saved.
pub open spec fn record_sides(s: BcSession, here: Seq<char>, bound: bool, side: Seq<char>) -> (
    Seq<char>,
    Seq<char>,
) {
    match server_side(s, here, bound) {
        Some(server) => ordered(
            server,
            if server == s.left@ {
                s.right@
            } else {
                s.left@
            },
            side,
        ),
        None => (s.left@, s.right@),
    }
}

fn sides_of(s: &BcSession, here: &str, bound: bool, side: &str) -> (r: (String, String))
    ensures
        (r.0@, r.1@) == record_sides(*s, here@, bound, side@),
{
    let on_left = text::equal_ignoring_case(s.left.as_str(), here);
    let on_right = text::equal_ignoring_case(s.right.as_str(), here);
    let server = if bound {
        if on_left {
            Some(s.left.as_str())
        } else if on_right {
            Some(s.right.as_str())
        } else {
            None
        }
    } else {
        let a = looks_like_server(s.left.as_str());
        let b = looks_like_server(s.right.as_str());
        if a != b {
            if a {
                Some(s.left.as_str())
            } else {
                Some(s.right.as_str())
            }
        } else {
            None
        }
    };
    match server {
        Some(server) => {
            if text::same(server, s.left.as_str()) {
                order_sides(server, s.right.as_str(), side)
            } else {
                order_sides(server, s.left.as_str(), side)
            }
        },
        None => (s.left.clone(), s.right.clone()),
    }
}

/// What a directory is compared with, as a record says: the other side where one side is exactly
/// the directory.
pub open spec fn other_side(s: BcSession, here: Seq<char>) -> Option<Seq<char>> {
    if text::same_ascii(s.left@, here) {
        Some(s.right@)
    } else if text::same_ascii(s.right@, here) {
        Some(s.left@)
    } else {
        None
    }
}

fn other_of(s: &BcSession, here: &str) -> (r: Option<String>)
    ensures
        match r {
            Some(t) => other_side(*s, here@) == Some(t@),
            None => other_side(*s, here@) is None,
        },
{
    if text::equal_ignoring_case(s.left.as_str(), here) {
        Some(s.right.clone())
    } else if text::equal_ignoring_case(s.right.as_str(), here) {
        Some(s.left.clone())
    } else {
        None
    }
}

// ---------------------------------------------------------------- what is learnt from a record

/// The settings of a directory with what a record says, where they said nothing yet.
pub open spec fn filled_in(
    d: DirConfig,
    filter: Seq<char>,
    target: Option<Seq<char>>,
    e: DirConfig,
) -> bool {
    &&& e.path == d.path
    &&& e.label == d.label
    &&& if d.bc_filter@.len() == 0 && filter.len() > 0 {
        e.bc_filter@ == filter
    } else {
        e.bc_filter == d.bc_filter
    }
    &&& if d.bc_target@.len() == 0 && (target matches Some(t) && t.len() > 0) {
        e.bc_target@ == target->0
    } else {
        e.bc_target == d.bc_target
    }
}

fn fill_in(d: &mut DirConfig, filter: &str, target: &Option<String>) -> (r: bool)
    ensures
        filled_in(
            *old(d),
            filter@,
            match *target {
                Some(t) => Some(t@),
                None => None,
            },
            *final(d),
        ),
        r == ((old(d).bc_filter@.len() == 0 && filter@.len() > 0) || (old(d).bc_target@.len() == 0
            && (target matches Some(t) && t@.len() > 0))),
        !r ==> *final(d) == *old(d),
{
    let mut dirty = false;
    if d.bc_filter.as_str().is_empty() && !filter.is_empty() {
        d.bc_filter = filter.to_owned();
        dirty = true;
    }
    if d.bc_target.as_str().is_empty() {
        if let Some(t) = target {
            if !t.as_str().is_empty() {
                d.bc_target = t.clone();
                dirty = true;
            }
        }
    }
    dirty
}

/// What was set by hand is never overwritten by what a record says.
pub proof fn law_own_settings_are_kept(
    d: DirConfig,
    filter: Seq<char>,
    target: Option<Seq<char>>,
    e: DirConfig,
)
    requires
        filled_in(d, filter, target, e),
    ensures
        d.bc_filter@.len() > 0 ==> e.bc_filter == d.bc_filter,
        d.bc_target@.len() > 0 ==> e.bc_target == d.bc_target,
        e.path == d.path && e.label == d.label,
{
}

// ---------------------------------------------------------------- the directory that is selected

/// What is said of the record that was found.
pub open spec fn record_text(label: Seq<char>, s: BcSession) -> Seq<char> {
    "目录「"@ + label + "」匹配到对比记录："@ + s.name@ + "（"@ + (if s.folder {
        "文件夹对比"@
    } else {
        "文件对比"@
    }) + "），名称筛选："@ + (if s.filter@.len() == 0 {
        "无"@
    } else {
        s.filter@
    })
}

/// What is said where the bound directory is used without a record.
pub open spec fn bound_text(label: Seq<char>, left: Seq<char>, right: Seq<char>) -> Seq<char> {
    "目录「"@ + label + "」按绑定的对比对象打开："@ + left + " <--> "@ + right
        + "（BC 记录里没有这条，名称筛选走本程序配置）"@
}

/// What is said where there is nothing to compare a directory with.
pub open spec fn unmatched_text(records: int, folder: Seq<char>) -> Seq<char> {
    "Beyond Compare 的 "@ + text::decimal(records) + " 条对比记录里没有匹配「"@ + folder
        + "」的，且没绑定对比对象；请在「更多 → 绑定对比对象」里指定另一侧，之后就不依赖本机的 BC 记录了"@
}

/// The option that leaves names out.
pub open spec fn filter_switch(filter: Seq<char>) -> Seq<Seq<char>> {
    if filter.len() == 0 {
        Seq::empty()
    } else {
        seq!["/filters="@ + filter]
    }
}

fn record_line(label: &str, s: &BcSession) -> (r: String)
    ensures
        r@ == record_text(label@, *s),
{
    let mut t = text::join3("目录「", label, "」匹配到对比记录：");
    t.append(s.name.as_str());
    t.append("（");
    if s.folder {
        t.append("文件夹对比");
    } else {
        t.append("文件对比");
    }
    t.append("），名称筛选：");
    if s.filter.as_str().is_empty() {
        t.append("无");
    } else {
        t.append(s.filter.as_str());
    }
    t
}

fn bound_line(label: &str, left: &str, right: &str) -> (r: String)
    ensures
        r@ == bound_text(label@, left@, right@),
{
    let mut t = text::join3("目录「", label, "」按绑定的对比对象打开：");
    t.append(left);
    t.append(" <--> ");
    t.append(right);
    t.append("（BC 记录里没有这条，名称筛选走本程序配置）");
    t
}

fn unmatched_line(records: usize, folder: &str) -> (r: String)
    ensures
        r@ == unmatched_text(records as int, folder@),
{
    let n = text::count(records);
    let mut t = text::join3("Beyond Compare 的 ", n.as_str(), " 条对比记录里没有匹配「");
    t.append(folder);
    t.append("」的，且没绑定对比对象；请在「更多 → 绑定对比对象」里指定另一侧，之后就不依赖本机的 BC 记录了");
    t
}

impl SvnApp {
    /// The record to open for directory `index`. Where the directory is bound only a record of the
    /// two counts; otherwise the one that was `matched` by its name.
    pub open spec fn chosen(
        self,
        index: usize,
        list: Seq<BcSession>,
        matched: Option<usize>,
        pick: Option<usize>,
    ) -> bool {
        let d = self.cfg.dirs@[index as int];
        let there = bare_end(unmarked(d.bc_target@));
        if unmarked(d.bc_target@).len() == 0 {
            pick == matched
        } else {
            match pick {
                Some(i) => is_best(list, bare_end(d.path@), there, i as int),
                None => forall|k: int|
                    0 <= k < list.len() ==> !#[trigger] pairs(list[k], bare_end(d.path@), there),
            }
        }
    }

    /// From `self` to `after`: the comparison of directory `index` by the record `s`.
    pub open spec fn compares_by_record(
        self,
        index: usize,
        s: BcSession,
        after: SvnApp,
        wishes: Seq<Wish>,
        c: Compare,
    ) -> bool {
        let d = self.cfg.dirs@[index as int];
        let bound = unmarked(d.bc_target@).len() > 0;
        let here = bare_end(d.path@);
        let sides = record_sides(s, here, bound, self.cfg.bc_server_side@);
        &&& said(after) == pushed(
            said(self),
            Level::Info,
            record_text(self.label_at(index as int), s),
        )
        &&& text::views(c.targets@) == seq![sides.0, sides.1]
        &&& self.learns(index, s.filter@, other_side(s, here), after, wishes, c)
    }

    /// From `self` to `after`: the comparison of directory `index` with the one it is bound to.
    pub open spec fn compares_as_bound(
        self,
        index: usize,
        after: SvnApp,
        wishes: Seq<Wish>,
        c: Compare,
    ) -> bool {
        let d = self.cfg.dirs@[index as int];
        let sides = ordered(d.path@, unmarked(d.bc_target@), self.cfg.bc_server_side@);
        &&& said(after) == pushed(
            said(self),
            Level::Info,
            bound_text(self.label_at(index as int), sides.0, sides.1),
        )
        &&& text::views(c.targets@) == seq![sides.0, sides.1]
        &&& self.learns(index, Seq::empty(), None, after, wishes, c)
    }

    /// From `self` to `after`: what a record says is taken into the settings of directory `index`
    /// where they say nothing, and the filter of the settings goes before that of the record.
    pub open spec fn learns(
        self,
        index: usize,
        filter: Seq<char>,
        target: Option<Seq<char>>,
        after: SvnApp,
        wishes: Seq<Wish>,
        c: Compare,
    ) -> bool {
        let d = self.cfg.dirs@[index as int];
        let e = after.cfg.dirs@[index as int];
        &&& after.cfg.dirs@.len() == self.cfg.dirs@.len()
        &&& after.cfg.dirs@ == self.cfg.dirs@.update(index as int, e)
        &&& filled_in(d, filter, target, e)
        &&& wishes == saves(e != d, false)
        &&& text::views(c.switches@) == filter_switch(
            if e.bc_filter@.len() == 0 {
                filter
            } else {
                e.bc_filter@
            },
        )
        &&& after == (SvnApp {
            cfg: Config { dirs: after.cfg.dirs, ..self.cfg },
            output: after.output,
            ..self
        })
    }

    /// From `self` to `after`: the comparison of the directory that is selected.
    pub open spec fn compares_selected(
        self,
        list: Seq<BcSession>,
        matched: Option<usize>,
        after: SvnApp,
        wishes: Seq<Wish>,
        c: Compare,
    ) -> bool {
        match self.list.selected {
            None => {
                &&& wishes.len() == 0
                &&& c.is_bare()
                &&& hinted(self, "尚未选中目录，已直接打开 Beyond Compare 主窗口"@, after)
            },
            Some(index) => if !self.has_dir(index) {
                &&& wishes.len() == 0
                &&& c.is_bare()
                &&& hinted(self, "选中目录的路径已失效，已直接打开 Beyond Compare 主窗口"@, after)
            } else {
                let d = self.cfg.dirs@[index as int];
                exists|pick: Option<usize>| #[trigger]
                    self.chosen(index, list, matched, pick) && match pick {
                        Some(i) => self.compares_by_record(index, list[i as int], after, wishes, c),
                        None => if unmarked(d.bc_target@).len() == 0 {
                            &&& wishes.len() == 0
                            &&& c.is_bare()
                            &&& hinted(
                                self,
                                unmatched_text(
                                    list.len() as int,
                                    match path::file_name(d.path@) {
                                        Some(name) => name,
                                        None => Seq::empty(),
                                    },
                                ),
                                after,
                            )
                        } else {
                            self.compares_as_bound(index, after, wishes, c)
                        },
                    }
            },
        }
    }

    fn learn(&mut self, index: usize, filter: &str, target: &Option<String>, targets: Vec<String>)
        -> (r: (Vec<Wish>, Compare))
        requires
            index < old(self).cfg.dirs@.len(),
        ensures
            r.1.targets == targets,
            old(self).learns(
                index,
                filter@,
                match *target {
                    Some(t) => Some(t@),
                    None => None,
                },
                *final(self),
                r.0@,
                r.1,
            ),
            final(self).output == old(self).output,
    {
        let ghost before = self.cfg.dirs@;
        let dirty = fill_in(&mut self.cfg.dirs[index], filter, target);
        assert(self.cfg.dirs@ =~= before.update(index as int, self.cfg.dirs@[index as int]));
        let wishes = save_if(dirty, false);
        let used = if self.cfg.dirs[index].bc_filter.as_str().is_empty() {
            filter.to_owned()
        } else {
            self.cfg.dirs[index].bc_filter.clone()
        };
        let mut switches: Vec<String> = Vec::new();
        if !used.as_str().is_empty() {
            switches.push(text::join2("/filters=", used.as_str()));
        }
        assert(text::views(switches@) =~= filter_switch(used@));
        (wishes, Compare { targets, switches })
    }

    fn choose_record(&self, index: usize, list: &Vec<BcSession>, matched: Option<usize>) -> (r:
        Option<usize>)
        requires
            index < self.cfg.dirs@.len(),
            matched matches Some(i) ==> i < list@.len(),
        ensures
            self.chosen(index, list@, matched, r),
            r matches Some(i) ==> i < list@.len(),
    {
        let bound = drop_marks(self.cfg.dirs[index].bc_target.as_str());
        if bound.as_str().is_empty() {
            return matched;
        }
        let here = text::stripped_end(self.cfg.dirs[index].path.as_str(), '\\', '/');
        let there = text::stripped_end(bound.as_str(), '\\', '/');
        bound_session(list, here.as_str(), there.as_str())
    }

    fn compare_by_record(&mut self, index: usize, s: &BcSession) -> (r: (Vec<Wish>, Compare))
        requires
            index < old(self).cfg.dirs@.len(),
        ensures
            old(self).compares_by_record(index, *s, *final(self), r.0@, r.1),
    {
        let label = self.dir_label(index);
        let line = record_line(label.as_str(), s);
        let bound = !drop_marks(self.cfg.dirs[index].bc_target.as_str()).as_str().is_empty();
        let here = text::stripped_end(self.cfg.dirs[index].path.as_str(), '\\', '/');
        let (left, right) = sides_of(s, here.as_str(), bound, self.cfg.bc_server_side.as_str());
        let target = other_of(s, here.as_str());
        let mut targets: Vec<String> = Vec::new();
        targets.push(left);
        targets.push(right);
        assert(text::views(targets@) =~= seq![left@, right@]);
        let r = self.learn(index, s.filter.as_str(), &target, targets);
        self.push(Level::Info, line.as_str());
        r
    }

    fn compare_as_bound(&mut self, index: usize) -> (r: (Vec<Wish>, Compare))
        requires
            index < old(self).cfg.dirs@.len(),
        ensures
            old(self).compares_as_bound(index, *final(self), r.0@, r.1),
    {
        let label = self.dir_label(index);
        let bound = drop_marks(self.cfg.dirs[index].bc_target.as_str());
        let (left, right) = order_sides(
            self.cfg.dirs[index].path.as_str(),
            bound.as_str(),
            self.cfg.bc_server_side.as_str(),
        );
        let line = bound_line(label.as_str(), left.as_str(), right.as_str());
        let mut targets: Vec<String> = Vec::new();
        targets.push(left);
        targets.push(right);
        assert(text::views(targets@) =~= seq![left@, right@]);
        let nothing = String::new();
        assert(nothing@ =~= Seq::empty());
        let r = self.learn(index, nothing.as_str(), &None, targets);
        self.push(Level::Info, line.as_str());
        r
    }

    /// What to compare for the directory that is selected. `list` are the saved comparisons, and
    /// `matched` is the one that fits the name of the directory, if any. Returns what to do next
    /// and what to open.
    pub fn open_bcompare_matched(&mut self, list: &Vec<BcSession>, matched: Option<usize>) -> (r: (
        Vec<Wish>,
        Compare,
    ))
        requires
            old(self).wf(),
            matched matches Some(i) ==> i < list@.len(),
        ensures
            final(self).wf(),
            old(self).compares_selected(list@, matched, *final(self), r.0@, r.1),
    {
        let index = match self.list.selected {
            Some(index) => index,
            None => {
                self.hint("尚未选中目录，已直接打开 Beyond Compare 主窗口");
                return (Vec::new(), bare());
            },
        };
        if index >= self.cfg.dirs.len() {
            self.hint("选中目录的路径已失效，已直接打开 Beyond Compare 主窗口");
            return (Vec::new(), bare());
        }
        let pick = self.choose_record(index, list, matched);
        assert(old(self).chosen(index, list@, matched, pick));
        match pick {
            Some(i) => self.compare_by_record(index, &list[i]),
            None => {
                let bound = drop_marks(self.cfg.dirs[index].bc_target.as_str());
                if bound.as_str().is_empty() {
                    let folder = match path::name_of(self.cfg.dirs[index].path.as_str()) {
                        Some(name) => name,
                        None => String::new(),
                    };
                    assert(folder@ =~= match path::file_name(self.cfg.dirs@[index as int].path@) {
                        Some(name) => name,
                        None => Seq::empty(),
                    });
                    let t = unmatched_line(list.len(), folder.as_str());
                    self.hint = t;
                    (Vec::new(), bare())
                } else {
                    self.compare_as_bound(index)
                }
            },
        }
    }
}

// ---------------------------------------------------------------- starting the program

/// The words of a command, as the output shows them: options with blanks and all paths are quoted.
pub open spec fn shown_words(switches: Seq<Seq<char>>, targets: Seq<Seq<char>>) -> Seq<Seq<char>> {
    Seq::new(
        switches.len(),
        |i: int|
            if text::occurs(switches[i], " "@) {
                crate::work::quoted(switches[i])
            } else {
                switches[i]
            },
    ) + Seq::new(targets.len(), |i: int| crate::work::quoted(targets[i]))
}

fn quote(s: &str) -> (r: String)
    ensures
        r@ == crate::work::quoted(s@),
{
    text::join3("\"", s, "\"")
}

fn show_words(switches: &Vec<String>, targets: &Vec<String>) -> (r: Vec<String>)
    ensures
        text::views(r@) == shown_words(text::views(switches@), text::views(targets@)),
{
    let ghost all = shown_words(text::views(switches@), text::views(targets@));
    let mut r: Vec<String> = Vec::new();
    let mut i: usize = 0;
    while i < switches.len()
        invariant
            i <= switches.len(),
            all == shown_words(text::views(switches@), text::views(targets@)),
            text::views(r@) == all.take(i as int),
        decreases switches.len() - i,
    {
        let ghost before = r@;
        let w = if text::contains(switches[i].as_str(), " ") {
            quote(switches[i].as_str())
        } else {
            switches[i].clone()
        };
        r.push(w);
        assert(text::views(r@) =~= text::views(before).push(w@));
        assert(all[i as int] == w@);
        i += 1;
        assert(text::views(r@) =~= all.take(i as int));
    }
    let mut k: usize = 0;
    while k < targets.len()
        invariant
            k <= targets.len(),
            all == shown_words(text::views(switches@), text::views(targets@)),
            text::views(r@) == all.take(switches@.len() + k),
        decreases targets.len() - k,
    {
        let ghost before = r@;
        let w = quote(targets[k].as_str());
        r.push(w);
        assert(text::views(r@) =~= text::views(before).push(w@));
        assert(all[switches@.len() + k] == w@);
        k += 1;
        assert(text::views(r@) =~= all.take(switches@.len() + k));
    }
    assert(text::views(r@) =~= all);
    r
}

/// What became of the attempt to start the program.
#[derive(Debug)]
pub enum Launch {
    /// There is no such program.
    Missing,
    /// This path cannot be reached.
    NoTarget(String),
    /// It did not start, for this reason.
    Failed(String),
    Started,
}

impl SvnApp {
    /// From `self` to `after`: it was told what became of the attempt to start the program.
    pub open spec fn launched(self, c: Compare, how: Launch, after: SvnApp) -> bool {
        match how {
            Launch::Missing => {
                &&& after.hint@
                    == "未找到 Beyond Compare（BCompare.exe），可在「设置 → Beyond Compare」中指定路径"@
                &&& after == (SvnApp { hint: after.hint, show_settings: true, ..self })
            },
            Launch::NoTarget(p) => {
                &&& after.hint@ == "对比路径不存在或无法访问："@ + p@
                &&& said(after) == pushed(
                    said(self),
                    Level::Warning,
                    "对比路径不存在或无法访问："@ + p@,
                )
                &&& after == (SvnApp { hint: after.hint, output: after.output, ..self })
            },
            Launch::Failed(why) => hinted(self, why@, after),
            Launch::Started => {
                &&& after.hint@ == "已启动 Beyond Compare"@
                &&& said(after) == pushed(
                    said(self),
                    Level::Command,
                    "$ "@ + crate::work::quoted(self.bc@) + " "@ + text::joined(
                        shown_words(text::views(c.switches@), text::views(c.targets@)),
                        " "@,
                    ),
                )
                &&& after == (SvnApp { hint: after.hint, output: after.output, ..self })
            },
        }
    }

    /// Another program was found where the one of the settings does not exist.
    pub fn use_comparer(&mut self, found: &str) -> (r: Vec<Wish>)
        ensures
            r@ == saves(true, false),
            final(self).bc@ == found@,
            final(self).cfg.bc_exe@ == found@,
            *final(self) == (SvnApp {
                bc: final(self).bc,
                cfg: Config { bc_exe: final(self).cfg.bc_exe, ..old(self).cfg },
                ..*old(self)
            }),
    {
        self.bc = found.to_owned();
        self.cfg.bc_exe = found.to_owned();
        save_if(true, false)
    }

    /// Tells what became of the attempt to start the program. Returns whether it started.
    pub fn open_bcompare(&mut self, c: &Compare, how: Launch) -> (r: bool)
        ensures
            r == (how is Started),
            old(self).launched(*c, how, *final(self)),
    {
        match how {
            Launch::Missing => {
                self.hint("未找到 Beyond Compare（BCompare.exe），可在「设置 → Beyond Compare」中指定路径");
                self.show_settings = true;
                false
            },
            Launch::NoTarget(p) => {
                let t = text::join2("对比路径不存在或无法访问：", p.as_str());
                self.push(Level::Warning, t.as_str());
                self.hint = t;
                false
            },
            Launch::Failed(why) => {
                self.hint = why;
                false
            },
            Launch::Started => {
                let words = show_words(&c.switches, &c.targets);
                let all = text::join_with(&words, " ");
                let exe = quote(self.bc.as_str());
                let mut t = text::join3("$ ", exe.as_str(), " ");
                t.append(all.as_str());
                self.push(Level::Command, t.as_str());
                self.hint("已启动 Beyond Compare");
                true
            },
        }
    }
}

// ---------------------------------------------------------------- a single file

/// The comparison of a file with the version that it is based on.
#[derive(Debug)]
pub struct FileCompare {
    pub svn: Svn,
    pub path: String,
    /// Where the base version is put, below the directory for temporary files.
    pub mirror: String,
}

impl SvnApp {
    /// Begins to compare a file with the version that it is based on. The base version is put below
    /// `temp`, under the name that the file has below the working copy; a file that does not lie
    /// there is not compared.
    pub fn open_bcompare_file(&mut self, index: usize, file: &str, temp: &str, is_file: bool) -> (r:
        Option<FileCompare>)
        ensures
            if !old(self).usable(is_file) {
                r is None && final(self).asks_for_client(*old(self))
            } else if !old(self).has_dir(index) {
                r is None && *final(self) == *old(self)
            } else {
                match path::below(file@, old(self).path_at(index)) {
                    None => r is None && hinted(
                        *old(self),
                        "无法确定该文件在工作副本中的相对路径，已放弃对比"@,
                        *final(self),
                    ),
                    Some(rest) => {
                        &&& *final(self) == *old(self)
                        &&& r matches Some(c) && c.svn == old(self).svn && c.path@ == file@
                            && c.mirror@ == path::joined(
                            path::joined(path::joined(temp@, "SVNManager"@), "BASE"@),
                            rest,
                        )
                    },
                }
            },
    {
        let svn = match self.svn_or_none(is_file) {
            Some(svn) => svn,
            None => {
                return None;
            },
        };
        if index >= self.cfg.dirs.len() {
            return None;
        }
        match path::find_below(file, self.cfg.dirs[index].path.as_str()) {
            None => {
                self.hint("无法确定该文件在工作副本中的相对路径，已放弃对比");
                None
            },
            Some(rest) => {
                let base = path::join(temp, "SVNManager");
                let base = path::join(base.as_str(), "BASE");
                let mirror = path::join(base.as_str(), rest.as_str());
                Some(FileCompare { svn, path: file.to_owned(), mirror })
            },
        }
    }

    /// What to open once the base version was read, or could not be: a new file has none, and is
    /// shown alone.
    pub fn after_base(&mut self, c: &FileCompare, failed: &Option<String>) -> (r: Compare)
        ensures
            r.switches@.len() == 0,
            match *failed {
                None => {
                    let sides = ordered(c.mirror@, c.path@, old(self).cfg.bc_server_side@);
                    &&& text::views(r.targets@) == seq![sides.0, sides.1]
                    &&& *final(self) == *old(self)
                },
                Some(why) => {
                    &&& text::views(r.targets@) == seq![c.path@]
                    &&& said(*final(self)) == pushed(
                        said(*old(self)),
                        Level::Warning,
                        "$ svn cat -r BASE "@ + crate::work::quoted(c.path@) + " 失败："@ + why@,
                    )
                    &&& *final(self) == (SvnApp { output: final(self).output, ..*old(self) })
                },
            },
    {
        let mut targets: Vec<String> = Vec::new();
        match failed {
            None => {
                let (left, right) = order_sides(
                    c.mirror.as_str(),
                    c.path.as_str(),
                    self.cfg.bc_server_side.as_str(),
                );
                targets.push(left);
                targets.push(right);
                assert(text::views(targets@) =~= seq![left@, right@]);
            },
            Some(why) => {
                let q = quote(c.path.as_str());
                let mut t = text::join3("$ svn cat -r BASE ", q.as_str(), " 失败：");
                t.append(why.as_str());
                self.push(Level::Warning, t.as_str());
                targets.push(c.path.clone());
                assert(text::views(targets@) =~= seq![c.path@]);
            },
        }
        Compare { targets, switches: Vec::new() }
    }

    /// Tells what was done to start the outside program afresh.
    pub fn reset_bc(&mut self, notes: &Vec<String>)
        ensures
            said(*final(self)) == with_notes(
                said(*old(self)),
                text::views(notes@),
                notes@.len() as int,
            ),
            final(self).hint@
                == "已重置 Beyond Compare（删除注册表 CacheID），重启 Beyond Compare 后生效，详情见输出记录"@,
            *final(self) == (SvnApp {
                hint: final(self).hint,
                output: final(self).output,
                ..*old(self)
            }),
    {
        let ghost first = *self;
        let ghost lv = text::views(notes@);
        let mut i: usize = 0;
        while i < notes.len()
            invariant
                i <= notes.len(),
                lv == text::views(notes@),
                said(*self) == with_notes(said(first), lv, i as int),
                *self == (SvnApp { output: self.output, ..first }),
            decreases notes.len() - i,
        {
            assert(lv[i as int] == notes@[i as int]@);
            self.push(Level::Info, notes[i].as_str());
            i += 1;
        }
        self.hint("已重置 Beyond Compare（删除注册表 CacheID），重启 Beyond Compare 后生效，详情见输出记录");
    }
}

/// The output behind the first `n` notes.
pub open spec fn with_notes(out: Seq<crate::model::OutView>, notes: Seq<Seq<char>>, n: int) -> Seq<
    crate::model::OutView,
>
    decreases n,
{
    if n <= 0 {
        out
    } else {
        pushed(with_notes(out, notes, n - 1), Level::Info, notes[n - 1])
    }
}

// ---------------------------------------------------------------- laws

/// A record is shown with its own two sides. Where the server's side is known, it stands on the
/// right if the settings say so and on the left otherwise. It is known of a bound directory, whose
/// own side it is, and of a record with just one side that names a server.
pub proof fn law_sides_of_records(s: BcSession, here: Seq<char>, bound: bool, side: Seq<char>)
    ensures
        ({
            let sides = record_sides(s, here, bound, side);
            &&& sides == (s.left@, s.right@) || sides == (s.right@, s.left@)
            &&& server_side(s, here, bound) matches Some(x) ==> if side == "right"@ {
                sides.1 == x
            } else {
                sides.0 == x
            }
            &&& bound && text::same_ascii(s.left@, here) ==> server_side(s, here, bound) == Some(
                s.left@,
            )
            &&& bound && !text::same_ascii(s.left@, here) && text::same_ascii(s.right@, here)
                ==> server_side(s, here, bound) == Some(s.right@)
            &&& !bound && names_server(s.left@) && !names_server(s.right@) ==> server_side(
                s,
                here,
                bound,
            ) == Some(s.left@)
            &&& !bound && !names_server(s.left@) && names_server(s.right@) ==> server_side(
                s,
                here,
                bound,
            ) == Some(s.right@)
            &&& server_side(s, here, bound) is None ==> sides == (s.left@, s.right@)
        }),
{
}

/// Two directories are a pair whichever of them is named first.
pub proof fn law_pairs_have_no_order(s: BcSession, here: Seq<char>, there: Seq<char>)
    ensures
        pairs(s, here, there) == pairs(s, there, here),
        pairs(s, here, there) ==> (other_side(s, here) matches Some(x) && (text::same_ascii(
            x,
            there,
        ) || text::same_ascii(x, here))),
{
}

/// No two records are the best one for two directories.
pub proof fn law_best_record_is_unique(
    list: Seq<BcSession>,
    here: Seq<char>,
    there: Seq<char>,
    i: int,
    j: int,
)
    requires
        is_best(list, here, there, i),
        is_best(list, here, there, j),
    ensures
        i == j,
        list[i].filter@.len() == 0 ==> forall|k: int|
            0 <= k < list.len() && #[trigger] pairs(list[k], here, there)
                ==> list[k].filter@.len() == 0 && i <= k,
        list[i].filter@.len() > 0 ==> forall|k: int|
            0 <= k < i && #[trigger] pairs(list[k], here, there) ==> list[k].filter@.len() == 0,
{
    assert(pairs(list[i], here, there));
    assert(pairs(list[j], here, there));
}

/// A directory is compared with the one it is bound to: those two, and no others, the server's one
/// on the right if the settings say so and on the left otherwise. What the settings of the directory
/// leave out is left out, and the settings stay as they are.
pub proof fn law_bound_directories_are_compared(
    a: SvnApp,
    index: usize,
    b: SvnApp,
    wishes: Seq<Wish>,
    c: Compare,
)
    requires
        index < a.cfg.dirs@.len(),
        a.compares_as_bound(index, b, wishes, c),
    ensures
        ({
            let d = a.cfg.dirs@[index as int];
            let shown = text::views(c.targets@);
            let words = text::views(c.switches@);
            &&& shown.len() == 2
            &&& if a.cfg.bc_server_side@ == "right"@ {
                shown[1] == d.path@ && shown[0] == unmarked(d.bc_target@)
            } else {
                shown[0] == d.path@ && shown[1] == unmarked(d.bc_target@)
            }
            &&& d.bc_filter@.len() == 0 ==> words.len() == 0
            &&& d.bc_filter@.len() > 0 ==> words.len() == 1 && text::ends(words[0], d.bc_filter@)
            &&& forall|i: int|
                0 <= i < a.cfg.dirs@.len() && i != index ==> #[trigger] b.cfg.dirs@[i]
                    == a.cfg.dirs@[i]
            &&& b.dirs == a.dirs && b.hint == a.hint
        }),
{
    let d = a.cfg.dirs@[index as int];
    let f = d.bc_filter@;
    let w = "/filters="@ + f;
    assert(w.subrange(w.len() - f.len(), w.len() as int) =~= f);
}

/// A command is shown with all its words, first the options and then the paths, every path in
/// quotation marks and every option that has a blank in it.
pub proof fn law_words_of_a_comparison(switches: Seq<Seq<char>>, targets: Seq<Seq<char>>, i: int)
    requires
        0 <= i < switches.len() + targets.len(),
    ensures
        ({
            let shown = shown_words(switches, targets);
            let blank = exists|k: int|
                0 <= k < switches[i].len() && (#[trigger] switches[i][k]) == ' ';
            &&& shown.len() == switches.len() + targets.len()
            &&& i >= switches.len() ==> shown[i] == seq!['"'] + targets[i - switches.len()]
                + seq!['"']
            &&& i < switches.len() && blank ==> shown[i] == seq!['"'] + switches[i] + seq!['"']
            &&& i < switches.len() && !blank ==> shown[i] == switches[i]
        }),
{
    reveal_strlit("\"");
    reveal_strlit(" ");
    assert("\""@ =~= seq!['"']);
    assert(" "@ =~= seq![' ']);
    if i < switches.len() {
        let s = switches[i];
        if exists|k: int| 0 <= k < s.len() && (#[trigger] s[k]) == ' ' {
            let k = choose|k: int| 0 <= k < s.len() && (#[trigger] s[k]) == ' ';
            assert(s.subrange(k, k + 1) =~= " "@);
            assert(text::occurs_at(s, " "@, k));
        }
        if text::occurs(s, " "@) {
            let k = choose|k: int| text::occurs_at(s, " "@, k);
            assert(s.subrange(k, k + 1)[0] == ' ');
            assert(s[k] == ' ');
        }
    }
}

/// Notes go to the output one by one, in order.
pub proof fn law_notes_are_added_in_order(
    out: Seq<crate::model::OutView>,
    notes: Seq<Seq<char>>,
    n: int,
)
    requires
        0 <= n <= notes.len(),
    ensures
        with_notes(out, notes, n) == notes.take(n).fold_left(
            out,
            |so_far: Seq<crate::model::OutView>, note: Seq<char>| pushed(so_far, Level::Info, note),
        ),
    decreases n,
{
    reveal(Seq::fold_left);
    if n > 0 {
        law_notes_are_added_in_order(out, notes, n - 1);
        assert(notes.take(n).drop_last() =~= notes.take(n - 1));
        assert(notes.take(n).last() == notes[n - 1]);
    }
}

} // verus!

