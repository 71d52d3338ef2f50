//! The check of a working copy, step by step. Each step takes the reply to the command before it
//! and says what to run next.

use vstd::prelude::*;
use crate::client::{read_info, read_out_of_date, read_status, status_read};
use crate::jobs::Checked;
use crate::replies;
use crate::svn::{
    blocked_among, blocked_count, status_views, uploads_among, uploads_of, Run, StatusEntry, WcInfo,
};
use crate::text;
use crate::xml;

verus! {

/// What to run next.
#[derive(Debug)]
pub enum Probe {
    /// `svn info` on this path or address.
    Info(String),
    /// `svn status -u`: the changes here and on the server in one go.
    Server,
    /// `svn status`, which leaves the server alone.
    Local,
    /// Nothing: this is what was found.
    Done(Checked),
}

/// A check under way.
#[derive(Debug)]
pub struct Refresh {
    pub dir: usize,
    pub label: String,
    pub path: String,
    /// The check says nothing in the output.
    pub quiet: bool,
    pub info: Option<WcInfo>,
    pub remote: Option<bool>,
    pub remote_msg: String,
    pub remote_rev: String,
    pub last_rev: String,
    pub last_author: String,
    pub last_date: String,
}

/// `shown` is what a reply of `svn info` comes to.
pub open spec fn info_read(run: Run, shown: Option<WcInfo>) -> bool {
    if !run.ok {
        shown is None
    } else {
        match xml::document(run.out@) {
            Some(nodes) => replies::info_shown(replies::info_in(nodes), replies::info_view(shown)),
            None => shown is None,
        }
    }
}

/// How many items the server has in a newer version, as a reply of `svn status -u` says.
pub open spec fn behind_read(run: Run) -> Option<int> {
    if !run.ok {
        None
    } else {
        match xml::document(run.out@) {
            Some(nodes) => Some(replies::behind_from(nodes, 0) as int),
            None => Some(0),
        }
    }
}

/// The lines of a step, if it may say anything.
pub open spec fn heard(quiet: bool, lines: Seq<Seq<char>>) -> Seq<Seq<char>> {
    if quiet {
        Seq::empty()
    } else {
        lines
    }
}

/// A line about the directory `label`.
pub open spec fn tagged(label: Seq<char>, what: Seq<char>, rest: Seq<char>) -> Seq<char> {
    "["@ + label + "] "@ + what + rest
}

impl Refresh {
    /// A check of a directory that is no working copy finds nothing.
    pub open spec fn found_nothing(c: Checked) -> bool {
        &&& c.info is None
        &&& c.remote == Some(false)
        &&& c.remote_msg@ == "不是 SVN 工作副本"@
        &&& c.remote_rev@.len() == 0
        &&& c.last_rev@.len() == 0
        &&& c.last_author@.len() == 0
        &&& c.last_date@.len() == 0
        &&& c.changed is None
        &&& c.changes@.len() == 0
        &&& c.conflicts is None
        &&& c.out_of_date is None
    }

    /// What the check found, with the items of the last reply; `ok` tells whether that command
    /// worked, and `behind` how many items the server has in a newer version.
    pub open spec fn sums_up(
        self,
        c: Checked,
        entries: Seq<crate::svn::StatusView>,
        ok: bool,
        behind: Option<int>,
    ) -> bool {
        let n = entries.len() as int;
        &&& c.info == self.info
        &&& c.remote == self.remote
        &&& c.remote_msg == self.remote_msg
        &&& c.remote_rev == self.remote_rev
        &&& c.last_rev == self.last_rev
        &&& c.last_author == self.last_author
        &&& c.last_date == self.last_date
        &&& status_views(c.changes@) == uploads_among(entries, n)
        &&& match c.changed {
            Some(k) => ok && k == uploads_among(entries, n).len(),
            None => !ok,
        }
        &&& match c.conflicts {
            Some(k) => ok && k == blocked_among(entries),
            None => !ok,
        }
        &&& match c.out_of_date {
            Some(k) => behind == Some(k as int),
            None => behind is None,
        }
    }

    /// The lines at the end of a check.
    pub open spec fn closing(self, behind: Option<int>) -> Seq<Seq<char>> {
        (if behind matches Some(k) && k > 0 {
            seq![
                tagged(
                    self.label@,
                    "服务器上有 "@,
                    text::decimal(behind->0) + " 项本地还没更新"@,
                ),
            ]
        } else {
            Seq::empty()
        }) + (if self.remote != Some(true) {
            seq![tagged(self.label@, "连接异常："@, self.remote_msg@)]
        } else {
            Seq::empty()
        })
    }

    /// A check that has not begun.
    pub fn new(dir: usize, label: &str, path: &str, quiet: bool) -> (r: Refresh)
        ensures
            r.dir == dir,
            r.label@ == label@,
            r.path@ == path@,
            r.quiet == quiet,
            r.info is None,
            r.remote == Some(true),
            r.remote_msg@ == "已连接到仓库"@,
            r.remote_rev@.len() == 0,
            r.last_rev@.len() == 0,
            r.last_author@.len() == 0,
            r.last_date@.len() == 0,
    {
        Refresh {
            dir,
            label: label.to_owned(),
            path: path.to_owned(),
            quiet,
            info: None,
            remote: Some(true),
            remote_msg: "已连接到仓库".to_owned(),
            remote_rev: String::new(),
            last_rev: String::new(),
            last_author: String::new(),
            last_date: String::new(),
        }
    }

    /// What a check begins with.
    pub fn begin(&self) -> (r: Probe)
        ensures
            r matches Probe::Info(t) && t@ == self.path@,
    {
        Probe::Info(self.path.clone())
    }

    /// The working copy has told about itself.
    pub fn after_info(&mut self, run: &Run) -> (r: (Vec<String>, Probe))
        ensures
            info_read(*run, final(self).info),
            match final(self).info {
                None => {
                    &&& text::views(r.0@) == heard(
                        old(self).quiet,
                        seq![tagged(old(self).label@, "不是 SVN 工作副本："@, run.told())],
                    )
                    &&& r.1 matches Probe::Done(c) && Refresh::found_nothing(c)
                    &&& *final(self) == (Refresh { info: None, ..*old(self) })
                },
                Some(i) => if i.url@.len() == 0 {
                    &&& r.0@.len() == 0
                    &&& r.1 is Local
                    &&& final(self).remote_msg@ == "无法取得仓库 URL"@
                    &&& *final(self) == (Refresh {
                        info: final(self).info,
                        remote: Some(false),
                        remote_msg: final(self).remote_msg,
                        ..*old(self)
                    })
                } else {
                    &&& text::views(r.0@) == heard(
                        old(self).quiet,
                        seq!["$ svn info --xml "@ + i.url@],
                    )
                    &&& r.1 matches Probe::Info(t) && t@ == i.url@
                    &&& *final(self) == (Refresh { info: final(self).info, ..*old(self) })
                },
            },
    {
        let mut lines: Vec<String> = Vec::new();
        self.info = read_info(run);
        let url = match &self.info {
            None => {
                if !self.quiet {
                    let why = run.summary();
                    lines.push(tag(self.label.as_str(), "不是 SVN 工作副本：", why.as_str()));
                    assert(text::views(lines@) =~= seq![
                        tagged(self.label@, "不是 SVN 工作副本："@, run.told()),
                    ]);
                } else {
                    assert(text::views(lines@) =~= Seq::empty());
                }
                let c = Checked {
                    info: None,
                    remote: Some(false),
                    remote_msg: "不是 SVN 工作副本".to_owned(),
                    remote_rev: String::new(),
                    last_rev: String::new(),
                    last_author: String::new(),
                    last_date: String::new(),
                    changed: None,
                    changes: Vec::new(),
                    conflicts: None,
                    out_of_date: None,
                };
                return (lines, Probe::Done(c));
            },
            Some(i) => i.url.clone(),
        };
        if url.as_str().is_empty() {
            self.remote = Some(false);
            self.remote_msg = "无法取得仓库 URL".to_owned();
            return (lines, Probe::Local);
        }
        if !self.quiet {
            lines.push(text::join2("$ svn info --xml ", url.as_str()));
            assert(text::views(lines@) =~= seq!["$ svn info --xml "@ + url@]);
        } else {
            assert(text::views(lines@) =~= Seq::empty());
        }
        (lines, Probe::Info(url))
    }

    /// The server has told about the directory, or could not be reached.
    pub fn after_head(&mut self, run: &Run) -> (r: Probe)
        ensures
            if run.ok {
                &&& r is Server
                &&& exists|head: Option<WcInfo>| #[trigger]
                    info_read(*run, head) && *final(self) == old(self).with_head(head)
            } else {
                &&& r is Local
                &&& final(self).remote_msg@ == run.told()
                &&& *final(self) == (Refresh {
                    remote: Some(false),
                    remote_msg: final(self).remote_msg,
                    ..*old(self)
                })
            },
    {
        if !run.ok {
            self.remote = Some(false);
            self.remote_msg = run.summary();
            return Probe::Local;
        }
        let head = read_info(run);
        assert(info_read(*run, head));
        if let Some(h) = head {
            self.remote_rev = h.revision;
            self.last_rev = h.last_rev;
            self.last_author = h.last_author;
            self.last_date = h.last_date;
        }
        Probe::Server
    }

    /// The check with what the server told.
    pub open spec fn with_head(self, head: Option<WcInfo>) -> Refresh {
        match head {
            None => self,
            Some(h) => Refresh {
                remote_rev: h.revision,
                last_rev: h.last_rev,
                last_author: h.last_author,
                last_date: h.last_date,
                ..self
            },
        }
    }

    /// The changes here and on the server were read. Where that failed, the changes here are read
    /// alone.
    pub fn after_server(&self, run: &Run) -> (r: (Vec<String>, Probe))
        ensures
            if run.ok {
                &&& text::views(r.0@) == heard(self.quiet, self.closing(behind_read(*run)))
                &&& r.1 matches Probe::Done(c) && self.sums_up(
                    c,
                    status_read(*run, self.path@),
                    true,
                    behind_read(*run),
                )
            } else {
                r.0@.len() == 0 && r.1 is Local
            },
    {
        if !run.ok {
            return (Vec::new(), Probe::Local);
        }
        let entries = read_status(run, self.path.as_str());
        let behind = read_out_of_date(run);
        self.finish(entries, behind, true)
    }

    /// The changes here were read.
    pub fn after_local(&self, run: &Run) -> (r: (Vec<String>, Probe))
        ensures
            text::views(r.0@) == heard(self.quiet, self.closing(None)),
            r.1 matches Probe::Done(c) && self.sums_up(
                c,
                status_read(*run, self.path@),
                run.ok,
                None,
            ),
    {
        let entries = read_status(run, self.path.as_str());
        self.finish(entries, None, run.ok)
    }

    fn finish(&self, entries: Vec<StatusEntry>, behind: Option<usize>, ok: bool) -> (r: (
        Vec<String>,
        Probe,
    ))
        ensures
            ({
                let b = match behind {
                    Some(k) => Some(k as int),
                    None => None,
                };
                &&& text::views(r.0@) == heard(self.quiet, self.closing(b))
                &&& r.1 matches Probe::Done(c) && self.sums_up(c, status_views(entries@), ok, b)
            }),
    {
        let ghost b = match behind {
            Some(k) => Some(k as int),
            None => None,
        };
        let changes = uploads_of(&entries);
        assert(status_views(changes@).len() == changes@.len());
        let changed = if ok {
            Some(changes.len())
        } else {
            None
        };
        let conflicts = if ok {
            Some(blocked_count(entries.as_slice()))
        } else {
            None
        };
        let mut lines: Vec<String> = Vec::new();
        if !self.quiet {
            if let Some(k) = behind {
                if k > 0 {
                    let n = text::count(k);
                    let rest = text::join2(n.as_str(), " 项本地还没更新");
                    lines.push(tag(self.label.as_str(), "服务器上有 ", rest.as_str()));
                }
            }
            let connected = match self.remote {
                Some(up) => up,
                None => false,
            };
            if !connected {
                lines.push(tag(self.label.as_str(), "连接异常：", self.remote_msg.as_str()));
            }
        }
        assert(text::views(lines@) =~= heard(self.quiet, self.closing(b)));
        let c = Checked {
            info: match &self.info {
                Some(i) => Some(i.clone()),
                None => None,
            },
            remote: self.remote,
            remote_msg: self.remote_msg.clone(),
            remote_rev: self.remote_rev.clone(),
            last_rev: self.last_rev.clone(),
            last_author: self.last_author.clone(),
            last_date: self.last_date.clone(),
            changed,
            changes,
            conflicts,
            out_of_date: behind,
        };
        (lines, Probe::Done(c))
    }
}

fn tag(label: &str, what: &str, rest: &str) -> (r: String)
    ensures
        r@ == tagged(label@, what@, rest@),
{
    let mut t = text::join3("[", label, "] ");
    t.append(what);
    t.append(rest);
    t
}

/// A check never takes a failed look at the changes for a clean directory: what could not be read
/// stays unknown.
pub proof fn law_failed_check_counts_nothing(
    check: Refresh,
    c: Checked,
    entries: Seq<crate::svn::StatusView>,
    behind: Option<int>,
)
    requires
        check.sums_up(c, entries, false, behind),
    ensures
        c.changed is None,
        c.conflicts is None,
{
}

/// What a check counts as changed is what it lists, and conflicts are not among it.
pub proof fn law_changes_are_listed(
    check: Refresh,
    c: Checked,
    entries: Seq<crate::svn::StatusView>,
    behind: Option<int>,
    k: int,
)
    requires
        check.sums_up(c, entries, true, behind),
        0 <= k < c.changes@.len(),
    ensures
        c.changed == Some(c.changes@.len() as usize),
        c.changes@[k].item.uploads(),
        !c.changes@[k].item.blocks(),
{
    assert(status_views(c.changes@).len() == c.changes@.len());
    assert(status_views(c.changes@)[k] == c.changes@[k]@);
    lemma_uploads(entries, entries.len() as int, k);
}

proof fn lemma_uploads(entries: Seq<crate::svn::StatusView>, n: int, k: int)
    requires
        0 <= n <= entries.len(),
        0 <= k < uploads_among(entries, n).len(),
    ensures
        uploads_among(entries, n)[k].item.uploads(),
    decreases n,
{
    if n > 0 && k < uploads_among(entries, n - 1).len() {
        lemma_uploads(entries, n - 1, k);
    }
}

/// What a check finds, where the last command worked: the items that an upload takes along, in
/// order, how many they are, how many are in conflict or incomplete, and how many entries the
/// server has in a newer version.
pub proof fn law_checks_count_what_was_read(
    check: Refresh,
    c: Checked,
    entries: Seq<crate::svn::StatusView>,
    run: Run,
    nodes: Seq<xml::NodeView>,
)
    requires
        run.ok,
        xml::document(run.out@) == Some(nodes),
        check.sums_up(c, entries, true, behind_read(run)),
    ensures
        status_views(c.changes@) == entries.filter(
            |e: crate::svn::StatusView|
                e.item is Added || e.item is Modified || e.item is Deleted || e.item is Replaced
                    || e.item is Unversioned || e.item is Missing,
        ),
        c.changed matches Some(k) && k == c.changes@.len(),
        c.conflicts matches Some(k) && k == entries.filter(
            |e: crate::svn::StatusView| e.item is Conflict || e.item is Incomplete,
        ).len(),
        c.out_of_date matches Some(k) && k == Set::new(
            |i: int| replies::is_behind(nodes, i),
        ).len(),
{
    let n = entries.len() as int;
    crate::svn::law_changes_and_conflicts(entries, n);
    assert(entries.take(n) =~= entries);
    assert(status_views(c.changes@).len() == c.changes@.len());
    replies::law_every_change_on_the_server_counts(nodes);
}

/// A check ends with one line about the changes on the server where there are any, and one about the
/// connection where there is none, in this order; a quiet check says nothing.
pub proof fn law_checks_end_with_what_is_wrong(
    check: Refresh,
    behind: Option<int>,
    lines: Seq<Seq<char>>,
)
    ensures
        ({
            let end = check.closing(behind);
            let late = behind matches Some(k) && k > 0;
            let off = check.remote != Some(true);
            &&& end.len() == (if late {
                1int
            } else {
                0
            }) + (if off {
                1int
            } else {
                0
            })
            &&& off ==> text::ends(end.last(), check.remote_msg@)
            &&& late ==> text::occurs(end[0], text::decimal(behind->Some_0))
        }),
        heard(true, lines).len() == 0,
        heard(false, lines) == lines,
{
    let end = check.closing(behind);
    let head = "["@ + check.label@ + "] "@;
    if check.remote != Some(true) {
        let m = check.remote_msg@;
        let l = head + "连接异常："@ + m;
        assert(end.last() == l);
        assert(l.subrange(l.len() - m.len(), l.len() as int) =~= m);
    }
    if behind matches Some(k) && k > 0 {
        let d = text::decimal(behind->Some_0);
        let tail = " 项本地还没更新"@;
        text::lemma_occurs_between(head + "服务器上有 "@, d, tail);
        assert(end[0] =~= head + "服务器上有 "@ + d + tail);
    }
}

/// What the server tells of its newest revision is what is shown of it; where it tells nothing,
/// nothing changes. What is known of the connection stays.
pub proof fn law_heads_are_the_servers(check: Refresh, head: Option<WcInfo>)
    ensures
        ({
            let after = check.with_head(head);
            &&& head is None ==> after == check
            &&& head matches Some(h) ==> after.remote_rev == h.revision && after.last_rev
                == h.last_rev && after.last_author == h.last_author && after.last_date
                == h.last_date
            &&& after.info == check.info && after.remote == check.remote && after.remote_msg
                == check.remote_msg && after.dir == check.dir && after.path == check.path
        }),
{
}

/// Of a directory that is no working copy nothing is known and nothing counted, and it is not
/// connected.
pub proof fn law_no_working_copy_counts_nothing(c: Checked)
    requires
        Refresh::found_nothing(c),
    ensures
        c.info is None && c.remote == Some(false),
        c.changed is None && c.conflicts is None && c.out_of_date is None && c.changes@.len() == 0,
        c.remote_rev@.len() == 0 && c.last_rev@.len() == 0 && c.remote_msg@.len() > 0,
{
    reveal_strlit("不是 SVN 工作副本");
}

} // verus!

