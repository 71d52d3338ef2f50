//! Tasks that are one command of the client: what they show, what they run, and what comes of the
//! reply.

use vstd::prelude::*;
use crate::client::{
    by_author, diff_flags, diff_words, log_args, log_read, read_log, read_status, status_read,
    target_args, Invocation, InvocationView, Svn,
};
use crate::jobs::Data;
use crate::model::Maintain;
use crate::svn::{log_views, status_views, LogView, Run};
use crate::text;

verus! {

/// What a task does with a directory.
#[derive(Debug)]
pub enum Act {
    Update { label: String, path: String },
    Status { path: String, quiet: bool },
    /// The records of a directory. `ranged` tells that they are asked for by their days.
    Log { target: String, spec: String, limit: i64, author: String, ranged: bool },
    /// What one commit did to a path.
    FileDiff { revision: String, url: String, ignore_white: bool },
    FileLog { url: String, limit: i64 },
    /// What was changed in a path of the working copy.
    Diff { path: String, ignore_white: bool },
    Maintain { label: String, path: String, op: Maintain, targets: Vec<String> },
    Relocate { label: String, path: String, from: String, to: String, new_url: String },
    /// The own commits for the statistics.
    Stats { epoch: u64, target: String, spec: String, author: String },
}

/// A task that is one command of the client.
#[derive(Debug)]
pub struct Job {
    pub dir: usize,
    pub svn: Svn,
    pub act: Act,
}

/// The option of a comparison, as the output shows it.
pub open spec fn flags_shown(ignore_white: bool) -> Seq<char> {
    if ignore_white {
        " -x \"-w --ignore-eol-style\""@
    } else {
        Seq::empty()
    }
}

/// How many records are asked for, as the output shows it.
pub open spec fn limit_shown(limit: int, ranged: bool) -> Seq<char> {
    if ranged {
        Seq::empty()
    } else if limit > 0 {
        " -l "@ + text::signed(limit)
    } else {
        "（不限条数）"@
    }
}

/// Whose records are asked for, as the output shows it.
pub open spec fn author_shown(author: Seq<char>) -> Seq<char> {
    if author.len() == 0 {
        Seq::empty()
    } else {
        " --search "@ + author
    }
}

/// `s` in quotation marks.
pub open spec fn quoted(s: Seq<char>) -> Seq<char> {
    "\""@ + s + "\""@
}

/// `entries` are the records of `author` in a reply of `svn log`.
pub open spec fn records_read(run: Run, author: Seq<char>, entries: Seq<LogView>) -> bool {
    exists|all: Seq<LogView>| #[trigger]
        log_read(run, all) && entries == by_author(all, author, all.len() as int)
}

/// Why a read failed; empty where it did not.
pub open spec fn read_failure(run: Run) -> Seq<char> {
    if run.ok {
        Seq::empty()
    } else {
        run.told()
    }
}

/// What a command printed, or why it failed.
pub open spec fn printed(run: Run) -> Seq<char> {
    if run.ok {
        run.out@
    } else {
        run.told()
    }
}

impl Job {
    /// The line that announces the command; nothing where the task is quiet.
    pub open spec fn echo(self) -> Option<Seq<char>> {
        match self.act {
            Act::Update { label, path } => Some("$ svn update "@ + quoted(path@)),
            Act::Status { path, quiet } => if quiet {
                None
            } else {
                Some("$ svn status --xml "@ + quoted(path@))
            },
            Act::Log { target, spec, limit, author, ranged } => Some(
                "$ svn log -v -r "@ + spec@ + limit_shown(limit as int, ranged) + author_shown(
                    author@,
                ) + " --xml "@ + quoted(target@),
            ),
            Act::FileDiff { revision, url, ignore_white } => Some(
                "$ svn diff -c "@ + revision@ + " --internal-diff"@ + flags_shown(ignore_white)
                    + " "@ + quoted(url@),
            ),
            Act::FileLog { url, limit } => Some(
                "$ svn log -v -r HEAD:1 -l "@ + text::signed(limit as int) + " --xml "@ + quoted(
                    url@,
                ),
            ),
            Act::Diff { path, ignore_white } => Some(
                "$ svn diff --internal-diff"@ + flags_shown(ignore_white) + " "@ + quoted(path@),
            ),
            Act::Maintain { label, path, op, targets } => Some(
                if targets@.len() > 0 {
                    "$ svn "@ + op.words() + " （"@ + text::decimal(targets@.len() as int) + " 项）"@
                } else {
                    "$ svn "@ + op.words() + " "@ + quoted(path@)
                },
            ),
            Act::Relocate { label, path, from, to, new_url } => Some(
                "$ svn relocate "@ + quoted(from@) + " "@ + quoted(to@) + " "@ + quoted(path@),
            ),
            Act::Stats { epoch, target, spec, author } => Some(
                "$ svn log -v -r "@ + spec@ + " --search "@ + author@ + " --xml "@ + quoted(
                    target@,
                ),
            ),
        }
    }

    /// The command. `written` names the file that holds the targets, where they are too many for a
    /// command line.
    pub open spec fn invoked(self, written: Option<String>) -> InvocationView {
        match self.act {
            Act::Update { label, path } => self.svn.called(seq!["update"@, path@]),
            Act::Status { path, quiet } => self.svn.called(seq!["status"@, "--xml"@, path@]),
            Act::Log { target, spec, limit, author, ranged } => self.svn.called(
                log_args(target@, spec@, limit as int, author@),
            ),
            Act::FileDiff { revision, url, ignore_white } => self.svn.called(
                diff_words(
                    seq!["diff"@, "-c"@, revision@, "--internal-diff"@],
                    url@,
                    ignore_white,
                ),
            ),
            Act::FileLog { url, limit } => self.svn.called(
                log_args(url@, "HEAD:1"@, limit as int, ""@),
            ),
            Act::Diff { path, ignore_white } => self.svn.called(
                diff_words(seq!["diff"@, "--internal-diff"@], path@, ignore_white),
            ),
            Act::Maintain { label, path, op, targets } => match op {
                Maintain::Add => InvocationView {
                    args: target_args(seq!["add"@, "--force"@], text::views(targets@), written),
                    cwd: Some(path@),
                },
                Maintain::Delete => InvocationView {
                    args: target_args(seq!["delete"@], text::views(targets@), written),
                    cwd: Some(path@),
                },
                Maintain::Cleanup => self.svn.called(seq!["cleanup"@, path@]),
                Maintain::Resolve => self.svn.called(
                    seq!["resolve"@, "--accept"@, "working"@, "--recursive"@, path@],
                ),
                Maintain::Revert => self.svn.called(seq!["revert"@, "--recursive"@, path@]),
            },
            Act::Relocate { label, path, from, to, new_url } => self.svn.called(
                seq!["relocate"@, from@, to@, path@],
            ),
            Act::Stats { epoch, target, spec, author } => self.svn.called(
                log_args(target@, spec@, 0, author@),
            ),
        }
    }

    /// The line about the reply, if there is one, and what the task hands back.
    pub open spec fn outcome(self, run: Run, line: Option<Seq<char>>, data: Data) -> bool {
        match self.act {
            Act::Update { label, path } => {
                &&& line is None
                &&& data matches Data::Run { dir, ok, message, reload } && dir == self.dir && ok
                    == run.ok && reload && message@ == (if run.ok {
                    label@ + "：更新完成"@
                } else {
                    label@ + "：更新失败——"@ + run.told()
                })
            },
            Act::Status { path, quiet } => {
                &&& line == (if quiet {
                    None
                } else {
                    Some(
                        "→ 共 "@ + text::decimal(status_read(run, path@).len() as int) + " 项改动"@,
                    )
                })
                &&& data matches Data::Status { dir, entries, ok, message } && dir == self.dir && ok
                    == run.ok && status_views(entries@) == status_read(run, path@) && message@
                    == read_failure(run)
            },
            Act::Log { target, spec, limit, author, ranged } => {
                &&& data matches Data::Log { dir, entries, ok, message } && dir == self.dir && ok
                    == run.ok && records_read(run, author@, log_views(entries@)) && message@
                    == read_failure(run) && line == Some(
                    "→ 共 "@ + text::decimal(entries@.len() as int) + " 条提交记录"@,
                )
            },
            Act::FileDiff { revision, url, ignore_white } => {
                &&& line == Some(
                    "→ "@ + (if run.ok {
                        "已取到差异"@
                    } else {
                        run.told()
                    }),
                )
                &&& data matches Data::Run { dir, ok, message, reload } && dir == self.dir && ok
                    == run.ok && !reload && message@ == printed(run)
            },
            Act::FileLog { url, limit } => {
                &&& data matches Data::Log { dir, entries, ok, message } && dir == self.dir && ok
                    == run.ok && records_read(run, ""@, log_views(entries@)) && message@
                    == read_failure(run) && line == Some(
                    "→ 共 "@ + text::decimal(entries@.len() as int) + " 条记录"@,
                )
            },
            Act::Diff { path, ignore_white } => {
                &&& line is None
                &&& data matches Data::Run { dir, ok, message, reload } && dir == self.dir && ok
                    == run.ok && !reload && message@ == printed(run)
            },
            Act::Maintain { label, path, op, targets } => {
                &&& line is None
                &&& data matches Data::Run { dir, ok, message, reload } && dir == self.dir && ok
                    == run.ok && reload == (op != Maintain::Cleanup) && message@ == (if run.ok {
                    label@ + "："@ + op.title() + " 完成"@
                } else {
                    label@ + "："@ + op.title() + " 失败——"@ + run.told()
                })
            },
            Act::Relocate { label, path, from, to, new_url } => {
                &&& line is None
                &&& data matches Data::Run { dir, ok, message, reload } && dir == self.dir && ok
                    == run.ok && !reload && message@ == (if run.ok {
                    label@ + "：仓库地址已改为 "@ + new_url@
                } else {
                    label@ + "：修改仓库地址失败——"@ + run.told()
                })
            },
            Act::Stats { epoch, target, spec, author } => {
                &&& data matches Data::Stats { dir, epoch: e, entries, ok, message } && dir
                    == self.dir && e == epoch && ok == run.ok && records_read(
                    run,
                    author@,
                    log_views(entries@),
                ) && message@ == read_failure(run) && line == Some(
                    "→ "@ + text::decimal(entries@.len() as int) + " 条本人提交"@,
                )
            },
        }
    }
}

fn add_quoted(t: &mut String, s: &str)
    ensures
        final(t)@ == old(t)@ + quoted(s@),
{
    let ghost start = t@;
    t.append("\"");
    t.append(s);
    t.append("\"");
    assert(t@ =~= start + quoted(s@));
}

fn failure(run: &Run) -> (r: String)
    ensures
        r@ == read_failure(*run),
{
    if run.ok {
        String::new()
    } else {
        run.summary()
    }
}

fn print_of(run: &Run) -> (r: String)
    ensures
        r@ == printed(*run),
{
    if run.ok {
        run.out.clone()
    } else {
        run.summary()
    }
}

fn counted(front: &str, n: usize, back: &str) -> (r: String)
    ensures
        r@ == front@ + text::decimal(n as int) + back@,
{
    let n = text::count(n);
    text::join3(front, n.as_str(), back)
}

fn log_line(spec: &str, limit: i64, author: &str, ranged: bool, target: &str) -> (r: String)
    ensures
        r@ == "$ svn log -v -r "@ + spec@ + limit_shown(limit as int, ranged) + author_shown(author@)
            + " --xml "@ + quoted(target@),
{
    let mut t = text::join2("$ svn log -v -r ", spec);
    let ghost head = t@;
    if !ranged {
        if limit > 0 {
            let n = text::integer(limit);
            t.append(" -l ");
            t.append(n.as_str());
        } else {
            t.append("（不限条数）");
        }
    }
    assert(t@ =~= head + limit_shown(limit as int, ranged));
    let ghost middle = t@;
    if !author.is_empty() {
        t.append(" --search ");
        t.append(author);
    }
    assert(t@ =~= middle + author_shown(author@));
    t.append(" --xml ");
    add_quoted(&mut t, target);
    t
}

fn upkeep_line(op: Maintain, count: usize, path: &str) -> (r: String)
    ensures
        r@ == (if count > 0 {
            "$ svn "@ + op.words() + " （"@ + text::decimal(count as int) + " 项）"@
        } else {
            "$ svn "@ + op.words() + " "@ + quoted(path@)
        }),
{
    let mut t = text::join2("$ svn ", op.command());
    if count > 0 {
        let n = text::count(count);
        t.append(" （");
        t.append(n.as_str());
        t.append(" 项）");
    } else {
        t.append(" ");
        add_quoted(&mut t, path);
    }
    t
}

impl Job {
    /// The line that announces the command; nothing where the task is quiet.
    pub fn opening(&self) -> (r: Option<String>)
        ensures
            match r {
                Some(t) => self.echo() == Some(t@),
                None => self.echo() is None,
            },
    {
        match &self.act {
            Act::Update { label: _, path } => {
                let mut t = "$ svn update ".to_owned();
                add_quoted(&mut t, path.as_str());
                Some(t)
            },
            Act::Status { path, quiet } => {
                if *quiet {
                    None
                } else {
                    let mut t = "$ svn status --xml ".to_owned();
                    add_quoted(&mut t, path.as_str());
                    Some(t)
                }
            },
            Act::Log { target, spec, limit, author, ranged } => Some(
                log_line(spec.as_str(), *limit, author.as_str(), *ranged, target.as_str()),
            ),
            Act::FileDiff { revision, url, ignore_white } => {
                let flags = diff_flags(*ignore_white);
                let mut t = text::join3("$ svn diff -c ", revision.as_str(), " --internal-diff");
                t.append(flags.as_str());
                t.append(" ");
                add_quoted(&mut t, url.as_str());
                Some(t)
            },
            Act::FileLog { url, limit } => {
                let n = text::integer(*limit);
                let mut t = text::join3("$ svn log -v -r HEAD:1 -l ", n.as_str(), " --xml ");
                add_quoted(&mut t, url.as_str());
                Some(t)
            },
            Act::Diff { path, ignore_white } => {
                let flags = diff_flags(*ignore_white);
                let mut t = text::join3("$ svn diff --internal-diff", flags.as_str(), " ");
                add_quoted(&mut t, path.as_str());
                Some(t)
            },
            Act::Maintain { label: _, path, op, targets } => Some(
                upkeep_line(*op, targets.len(), path.as_str()),
            ),
            Act::Relocate { label: _, path, from, to, new_url: _ } => {
                let mut t = "$ svn relocate ".to_owned();
                add_quoted(&mut t, from.as_str());
                t.append(" ");
                add_quoted(&mut t, to.as_str());
                t.append(" ");
                add_quoted(&mut t, path.as_str());
                Some(t)
            },
            Act::Stats { epoch: _, target, spec, author } => {
                let mut t = text::join3("$ svn log -v -r ", spec.as_str(), " --search ");
                t.append(author.as_str());
                t.append(" --xml ");
                add_quoted(&mut t, target.as_str());
                Some(t)
            },
        }
    }

    /// The command. `written` names the file that holds the targets, where they are too many for a
    /// command line.
    pub fn command(&self, written: &Option<String>) -> (r: Invocation)
        ensures
            r@ == self.invoked(*written),
    {
        match &self.act {
            Act::Update { label: _, path } => self.svn.update(path.as_str()),
            Act::Status { path, quiet: _ } => self.svn.status(path.as_str()),
            Act::Log { target, spec, limit, author, ranged: _ } => self.svn.log_in(
                target.as_str(),
                spec.as_str(),
                *limit,
                author.as_str(),
            ),
            Act::FileDiff { revision, url, ignore_white } => self.svn.diff_rev(
                revision.as_str(),
                url.as_str(),
                *ignore_white,
            ),
            Act::FileLog { url, limit } => self.svn.log(url.as_str(), *limit, ""),
            Act::Diff { path, ignore_white } => self.svn.diff(path.as_str(), *ignore_white),
            Act::Maintain { label: _, path, op, targets } => match *op {
                Maintain::Add => self.svn.add(path.as_str(), targets, written),
                Maintain::Delete => self.svn.delete(path.as_str(), targets, written),
                Maintain::Cleanup => self.svn.cleanup(path.as_str()),
                Maintain::Resolve => self.svn.resolve_working(path.as_str()),
                Maintain::Revert => self.svn.revert_all(path.as_str()),
            },
            Act::Relocate { label: _, path, from, to, new_url: _ } => self.svn.relocate(
                path.as_str(),
                from.as_str(),
                to.as_str(),
            ),
            Act::Stats { epoch: _, target, spec, author } => self.svn.log_in(
                target.as_str(),
                spec.as_str(),
                0,
                author.as_str(),
            ),
        }
    }

    /// What to run after the command failed, if there is another way: an old client does not know
    /// how to search a log.
    pub fn retry(&self, run: &Run) -> (r: Option<Invocation>)
        ensures
            match self.act {
                Act::Log { target, spec, limit, author, ranged } => match r {
                    Some(i) => !run.ok && author@.len() > 0 && i@ == self.svn.called(
                        log_args(target@, spec@, limit as int, Seq::empty()),
                    ),
                    None => run.ok || author@.len() == 0,
                },
                Act::Stats { epoch, target, spec, author } => match r {
                    Some(i) => !run.ok && author@.len() > 0 && i@ == self.svn.called(
                        log_args(target@, spec@, 0, Seq::empty()),
                    ),
                    None => run.ok || author@.len() == 0,
                },
                _ => r is None,
            },
    {
        match &self.act {
            Act::Log { target, spec, limit, author, ranged: _ } => self.svn.log_again(
                run,
                target.as_str(),
                spec.as_str(),
                *limit,
                author.as_str(),
            ),
            Act::Stats { epoch: _, target, spec, author } => self.svn.log_again(
                run,
                target.as_str(),
                spec.as_str(),
                0,
                author.as_str(),
            ),
            _ => None,
        }
    }

    /// The line about the reply, if there is one, and what the task hands back.
    pub fn finish(&self, run: &Run) -> (r: (Option<String>, Data))
        ensures
            self.outcome(
                *run,
                match r.0 {
                    Some(t) => Some(t@),
                    None => None,
                },
                r.1,
            ),
    {
        let dir = self.dir;
        let ok = run.ok;
        match &self.act {
            Act::Update { label, path: _ } => {
                let message = if ok {
                    text::join2(label.as_str(), "：更新完成")
                } else {
                    let why = run.summary();
                    text::join3(label.as_str(), "：更新失败——", why.as_str())
                };
                (None, Data::Run { dir, ok, message, reload: true })
            },
            Act::Status { path, quiet } => {
                let entries = read_status(run, path.as_str());
                assert(status_views(entries@).len() == entries@.len());
                let line = if *quiet {
                    None
                } else {
                    Some(counted("→ 共 ", entries.len(), " 项改动"))
                };
                (line, Data::Status { dir, entries, ok, message: failure(run) })
            },
            Act::Log { target: _, spec: _, limit: _, author, ranged: _ } => {
                let entries = read_log(run, author.as_str());
                let line = counted("→ 共 ", entries.len(), " 条提交记录");
                (Some(line), Data::Log { dir, entries, ok, message: failure(run) })
            },
            Act::FileDiff { revision: _, url: _, ignore_white: _ } => {
                let line = if ok {
                    text::join2("→ ", "已取到差异")
                } else {
                    let why = run.summary();
                    text::join2("→ ", why.as_str())
                };
                (Some(line), Data::Run { dir, ok, message: print_of(run), reload: false })
            },
            Act::FileLog { url: _, limit: _ } => {
                let entries = read_log(run, "");
                let line = counted("→ 共 ", entries.len(), " 条记录");
                (Some(line), Data::Log { dir, entries, ok, message: failure(run) })
            },
            Act::Diff { path: _, ignore_white: _ } => {
                (None, Data::Run { dir, ok, message: print_of(run), reload: false })
            },
            Act::Maintain { label, path: _, op, targets: _ } => {
                let mut message = text::join3(label.as_str(), "：", op.label());
                if ok {
                    message.append(" 完成");
                } else {
                    let why = run.summary();
                    message.append(" 失败——");
                    message.append(why.as_str());
                }
                let reload = match *op {
                    Maintain::Cleanup => false,
                    _ => true,
                };
                (None, Data::Run { dir, ok, message, reload })
            },
            Act::Relocate { label, path: _, from: _, to: _, new_url } => {
                let message = if ok {
                    text::join3(label.as_str(), "：仓库地址已改为 ", new_url.as_str())
                } else {
                    let why = run.summary();
                    text::join3(label.as_str(), "：修改仓库地址失败——", why.as_str())
                };
                (None, Data::Run { dir, ok, message, reload: false })
            },
            Act::Stats { epoch, target: _, spec: _, author } => {
                let entries = read_log(run, author.as_str());
                let line = counted("→ ", entries.len(), " 条本人提交");
                let data = Data::Stats {
                    dir,
                    epoch: *epoch,
                    entries,
                    ok,
                    message: failure(run),
                };
                (Some(line), data)
            },
        }
    }
}

// ---------------------------------------------------------------- laws of the tasks

proof fn lemma_ends_in(front: Seq<char>, s: Seq<char>)
    ensures
        text::ends(front + s, s),
{
    let t = front + s;
    assert(t.subrange(t.len() - s.len(), t.len() as int) =~= s);
}

/// Whatever a task was asked to do, it hands back the directory that it worked on and whether the
/// command went well. Where it did not, the message ends with the reason; where something was read,
/// there is no message, and where something was compared, the message is what was printed. Only
/// what changes the working copy has its changes read again.
pub proof fn law_tasks_tell_how_it_went(job: Job, run: Run, line: Option<Seq<char>>, data: Data)
    requires
        job.outcome(run, line, data),
    ensures
        match data {
            Data::Run { dir, ok, message, reload } => {
                &&& dir == job.dir && ok == run.ok
                &&& !run.ok ==> text::ends(message@, run.told())
                &&& run.ok && (job.act is FileDiff || job.act is Diff) ==> message@ == run.out@
                &&& reload <==> (job.act is Update || (job.act matches Act::Maintain {
                    label,
                    path,
                    op,
                    targets,
                } && (op == Maintain::Add || op == Maintain::Delete || op == Maintain::Resolve || op
                    == Maintain::Revert)))
            },
            Data::Status { dir, entries, ok, message } => {
                &&& job.act is Status && dir == job.dir && ok == run.ok
                &&& message@ == (if run.ok {
                    Seq::empty()
                } else {
                    run.told()
                })
            },
            Data::Log { dir, entries, ok, message } => {
                &&& job.act is Log || job.act is FileLog
                &&& dir == job.dir && ok == run.ok
                &&& message@ == (if run.ok {
                    Seq::empty()
                } else {
                    run.told()
                })
            },
            Data::Stats { dir, epoch, entries, ok, message } => {
                &&& job.act matches Act::Stats { epoch: e, target, spec, author } && e == epoch
                &&& dir == job.dir && ok == run.ok
                &&& message@ == (if run.ok {
                    Seq::empty()
                } else {
                    run.told()
                })
            },
            _ => false,
        },
{
    if !run.ok {
        match job.act {
            Act::Update { label, path } => {
                lemma_ends_in(label@ + "：更新失败——"@, run.told());
            },
            Act::Maintain { label, path, op, targets } => {
                lemma_ends_in(label@ + "："@ + op.title() + " 失败——"@, run.told());
            },
            Act::Relocate { label, path, from, to, new_url } => {
                lemma_ends_in(label@ + "：修改仓库地址失败——"@, run.told());
            },
            Act::FileDiff { revision, url, ignore_white } => {
                lemma_ends_in(Seq::empty(), run.told());
                assert(Seq::empty() + run.told() =~= run.told());
            },
            Act::Diff { path, ignore_white } => {
                lemma_ends_in(Seq::empty(), run.told());
                assert(Seq::empty() + run.told() =~= run.told());
            },
            _ => {},
        }
    }
}

/// What a task is about: a path of the working copy or an address.
pub open spec fn about(act: Act) -> Seq<char> {
    match act {
        Act::Update { label, path } => path@,
        Act::Status { path, quiet } => path@,
        Act::Log { target, spec, limit, author, ranged } => target@,
        Act::FileDiff { revision, url, ignore_white } => url@,
        Act::FileLog { url, limit } => url@,
        Act::Diff { path, ignore_white } => path@,
        Act::Maintain { label, path, op, targets } => path@,
        Act::Relocate { label, path, from, to, new_url } => path@,
        Act::Stats { epoch, target, spec, author } => target@,
    }
}

/// A command names what it is about, and the line that announces it ends with that in quotation
/// marks: what is shown is what is run. Only what works on single items names those instead, and
/// is run in the directory. A quiet task is announced by no line.
pub proof fn law_commands_are_announced(job: Job, written: Option<String>)
    ensures
        ({
            let c = job.invoked(written);
            let single = job.act matches Act::Maintain { label, path, op, targets } && (op
                == Maintain::Add || op == Maintain::Delete);
            let items = job.act matches Act::Maintain { label, path, op, targets }
                && targets@.len() > 0;
            &&& !single ==> c.args.contains(about(job.act)) && c.cwd is None
            &&& single ==> c.cwd == Some(about(job.act))
            &&& !items ==> (job.echo() matches Some(t) ==> text::ends(
                t,
                seq!['"'] + about(job.act) + seq!['"'],
            ))
            &&& job.echo() is None <==> (job.act matches Act::Status { path, quiet } && quiet)
        }),
{
    reveal_strlit("\"");
    let at = about(job.act);
    let c = job.invoked(written);
    let common = crate::client::common_args(job.svn.username@, job.svn.password@);
    assert("\""@ =~= seq!['"']);
    assert(quoted(at) =~= seq!['"'] + at + seq!['"']);
    match job.act {
        Act::Update { label, path } => {
            assert(c.args[common.len() as int + 1] == at);
            lemma_ends_in("$ svn update "@, quoted(at));
        },
        Act::Status { path, quiet } => {
            assert(c.args[common.len() as int + 2] == at);
            lemma_ends_in("$ svn status --xml "@, quoted(at));
        },
        Act::Log { target, spec, limit, author, ranged } => {
            let k = common.len() as int + (if limit > 0 {
                7int
            } else {
                5
            });
            assert(c.args[k] == at);
            lemma_ends_in(
                "$ svn log -v -r "@ + spec@ + limit_shown(limit as int, ranged) + author_shown(
                    author@,
                ) + " --xml "@,
                quoted(at),
            );
        },
        Act::FileDiff { revision, url, ignore_white } => {
            assert(c.args[c.args.len() - 1] == at);
            lemma_ends_in(
                "$ svn diff -c "@ + revision@ + " --internal-diff"@ + flags_shown(ignore_white)
                    + " "@,
                quoted(at),
            );
        },
        Act::FileLog { url, limit } => {
            let k = common.len() as int + (if limit > 0 {
                7int
            } else {
                5
            });
            assert(c.args[k] == at);
            lemma_ends_in(
                "$ svn log -v -r HEAD:1 -l "@ + text::signed(limit as int) + " --xml "@,
                quoted(at),
            );
        },
        Act::Diff { path, ignore_white } => {
            assert(c.args[c.args.len() - 1] == at);
            lemma_ends_in("$ svn diff --internal-diff"@ + flags_shown(ignore_white) + " "@, quoted(at));
        },
        Act::Maintain { label, path, op, targets } => {
            match op {
                Maintain::Add => {},
                Maintain::Delete => {},
                _ => {
                    assert(c.args[c.args.len() - 1] == at);
                },
            }
            lemma_ends_in("$ svn "@ + op.words() + " "@, quoted(at));
        },
        Act::Relocate { label, path, from, to, new_url } => {
            assert(c.args[common.len() as int + 3] == at);
            lemma_ends_in("$ svn relocate "@ + quoted(from@) + " "@ + quoted(to@) + " "@, quoted(at));
        },
        Act::Stats { epoch, target, spec, author } => {
            assert(c.args[common.len() as int + 5] == at);
            lemma_ends_in(
                "$ svn log -v -r "@ + spec@ + " --search "@ + author@ + " --xml "@,
                quoted(at),
            );
        },
    }
}

} // verus!

