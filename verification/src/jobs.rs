//! The table of background tasks: what runs for which directory, what a task hands back, and what
//! becomes of the table once tasks end.

use vstd::prelude::*;
use crate::svn::{LogEntry, StatusEntry, WcInfo};

verus! {

/// What a task does.
#[derive(Clone, Copy, Debug, PartialEq, Eq, Structural)]
pub enum Kind {
    DetectSvn,
    AuthUser,
    Refresh,
    Status,
    Log,
    /// The differences that one commit made to a single path.
    FileDiff,
    /// The log of a single path.
    FileLog,
    CheckUpdate,
    /// A work log written from picked commits.
    AiLog,
    /// The commits of one directory for the statistics. These tasks stand under no directory of
    /// the list, so that they hold up no other work on it.
    Stats,
    DownloadUpdate,
    Update,
    Commit,
    Maintain,
    Relocate,
    Diff,
}

impl Kind {
    /// The task changes the working copy.
    pub open spec fn writes(self) -> bool {
        self is Update || self is Commit || self is Maintain || self is Relocate
    }

    /// The name of the kind.
    pub open spec fn title(self) -> Seq<char> {
        match self {
            Kind::DetectSvn => "DetectSvn"@,
            Kind::AuthUser => "AuthUser"@,
            Kind::Refresh => "Refresh"@,
            Kind::Status => "Status"@,
            Kind::Log => "Log"@,
            Kind::FileDiff => "FileDiff"@,
            Kind::FileLog => "FileLog"@,
            Kind::CheckUpdate => "CheckUpdate"@,
            Kind::AiLog => "AiLog"@,
            Kind::Stats => "Stats"@,
            Kind::DownloadUpdate => "DownloadUpdate"@,
            Kind::Update => "Update"@,
            Kind::Commit => "Commit"@,
            Kind::Maintain => "Maintain"@,
            Kind::Relocate => "Relocate"@,
            Kind::Diff => "Diff"@,
        }
    }

    /// Whether the task changes the working copy.
    pub fn writing(self) -> (r: bool)
        ensures
            r == self.writes(),
    {
        match self {
            Kind::Update => true,
            Kind::Commit => true,
            Kind::Maintain => true,
            Kind::Relocate => true,
            _ => false,
        }
    }

    /// The name of the kind.
    pub fn name(self) -> (r: &'static str)
        ensures
            r@ == self.title(),
    {
        match self {
            Kind::DetectSvn => "DetectSvn",
            Kind::AuthUser => "AuthUser",
            Kind::Refresh => "Refresh",
            Kind::Status => "Status",
            Kind::Log => "Log",
            Kind::FileDiff => "FileDiff",
            Kind::FileLog => "FileLog",
            Kind::CheckUpdate => "CheckUpdate",
            Kind::AiLog => "AiLog",
            Kind::Stats => "Stats",
            Kind::DownloadUpdate => "DownloadUpdate",
            Kind::Update => "Update",
            Kind::Commit => "Commit",
            Kind::Maintain => "Maintain",
            Kind::Relocate => "Relocate",
            Kind::Diff => "Diff",
        }
    }
}

/// What the source of updates says of its newest version.
#[derive(Debug)]
pub struct UpdateManifest {
    pub version: String,
    pub notes: String,
    pub published_at: String,
    pub url: String,
    pub sha256: String,
}

impl Clone for UpdateManifest {
    fn clone(&self) -> (r: UpdateManifest)
        ensures
            r == *self,
    {
        UpdateManifest {
            version: self.version.clone(),
            notes: self.notes.clone(),
            published_at: self.published_at.clone(),
            url: self.url.clone(),
            sha256: self.sha256.clone(),
        }
    }
}

/// What a check of a working copy found.
#[derive(Debug)]
pub struct Checked {
    pub info: Option<WcInfo>,
    pub remote: Option<bool>,
    pub remote_msg: String,
    pub remote_rev: String,
    pub last_rev: String,
    pub last_author: String,
    pub last_date: String,
    pub changed: Option<usize>,
    /// What an upload would take along.
    pub changes: Vec<StatusEntry>,
    /// How many items need somebody to look at them.
    pub conflicts: Option<usize>,
    /// How many items the server has in a newer version.
    pub out_of_date: Option<usize>,
}

/// What a task hands back.
#[derive(Debug)]
pub enum Data {
    Svn { exe: String, version: String, candidates: Vec<String> },
    User { user: String },
    /// `ready` tells whether there is anything to install.
    UpdateCheck {
        ok: bool,
        message: String,
        info: Option<UpdateManifest>,
        ready: bool,
        quiet: bool,
    },
    UpdateDownloaded { ok: bool, message: String, bytes: u64 },
    AiLog { ok: bool, content: String, message: String },
    /// `epoch` tells which query the records belong to.
    Stats { dir: usize, epoch: u64, entries: Vec<LogEntry>, ok: bool, message: String },
    Wc { dir: usize, found: Checked },
    Status { dir: usize, entries: Vec<StatusEntry>, ok: bool, message: String },
    Log { dir: usize, entries: Vec<LogEntry>, ok: bool, message: String },
    Run { dir: usize, ok: bool, message: String, reload: bool },
}

/// Where a task sends its lines.
#[derive(Clone, Copy, Debug, PartialEq, Eq, Structural)]
pub struct Sink {
    pub quiet: bool,
}

impl Sink {
    /// A sink that lets every line through.
    pub fn new() -> (r: Sink)
        ensures
            !r.quiet,
    {
        Sink { quiet: false }
    }

    /// The line to send on; none where the sink is muted.
    pub fn line(&self, text: &str) -> (r: Option<String>)
        ensures
            match r {
                Some(t) => !self.quiet && t@ == text@,
                None => self.quiet,
            },
    {
        if self.quiet {
            None
        } else {
            Some(text.to_owned())
        }
    }

    /// A sink that lets nothing through: reads that nobody asked for would only bury the lines
    /// that somebody waits for.
    pub fn muted(&self) -> (r: Sink)
        ensures
            r.quiet,
    {
        Sink { quiet: true }
    }
}

/// A task that runs.
#[derive(Debug)]
pub struct Task {
    pub kind: Kind,
    pub label: String,
    pub dir: usize,
}

/// What has come of a task.
#[derive(Debug)]
pub enum End {
    /// It still runs.
    Open,
    /// It handed its result back.
    Done(Data),
    /// It is gone without a result.
    Lost,
}

/// What a task has sent since it was asked last.
#[derive(Debug)]
pub struct Inbox {
    pub lines: Vec<String>,
    pub end: End,
}

/// What all tasks have sent.
#[derive(Debug)]
pub struct Polled {
    pub lines: Vec<String>,
    pub done: Vec<(Kind, usize, Data)>,
    /// Tasks that are gone without a result.
    pub stranded: Vec<(Kind, usize, String)>,
}

/// The tasks that run.
#[derive(Debug)]
pub struct Pool {
    pub tasks: Vec<Task>,
}

impl Default for Pool {
    fn default() -> (r: Pool)
        ensures
            r.tasks@.len() == 0,
    {
        Pool { tasks: Vec::new() }
    }
}

/// A task of `kind` runs for `dir`.
pub open spec fn runs(tasks: Seq<Task>, kind: Kind, dir: usize) -> bool {
    exists|i: int| 0 <= i < tasks.len() && (#[trigger] tasks[i]).kind == kind && tasks[i].dir == dir
}

/// A task runs for `dir`.
pub open spec fn busy(tasks: Seq<Task>, dir: usize) -> bool {
    exists|i: int| 0 <= i < tasks.len() && (#[trigger] tasks[i]).dir == dir
}

/// A task that changes the working copy runs for `dir`.
pub open spec fn written(tasks: Seq<Task>, dir: usize) -> bool {
    exists|i: int|
        0 <= i < tasks.len() && (#[trigger] tasks[i]).dir == dir && tasks[i].kind.writes()
}

/// The label of the first task that runs for `dir`.
pub open spec fn first_label(tasks: Seq<Task>, dir: usize) -> Option<Seq<char>>
    decreases tasks.len(),
{
    if tasks.len() == 0 {
        None
    } else if tasks[0].dir == dir {
        Some(tasks[0].label@)
    } else {
        first_label(tasks.drop_first(), dir)
    }
}

/// The lines of the first `n` inboxes, in order.
pub open spec fn all_lines(inbox: Seq<Inbox>, n: int) -> Seq<String>
    decreases n,
{
    if n <= 0 {
        Seq::empty()
    } else {
        all_lines(inbox, n - 1) + inbox[n - 1].lines@
    }
}

/// What the first `n` tasks have handed back, in order.
pub open spec fn all_done(tasks: Seq<Task>, inbox: Seq<Inbox>, n: int) -> Seq<(Kind, usize, Data)>
    decreases n,
{
    if n <= 0 {
        Seq::empty()
    } else {
        match inbox[n - 1].end {
            End::Done(data) => all_done(tasks, inbox, n - 1).push(
                (tasks[n - 1].kind, tasks[n - 1].dir, data),
            ),
            _ => all_done(tasks, inbox, n - 1),
        }
    }
}

/// Those of the first `n` tasks that are gone without a result, in order.
pub open spec fn all_lost(tasks: Seq<Task>, inbox: Seq<Inbox>, n: int) -> Seq<(Kind, usize, String)>
    decreases n,
{
    if n <= 0 {
        Seq::empty()
    } else if inbox[n - 1].end is Lost {
        all_lost(tasks, inbox, n - 1).push(
            (tasks[n - 1].kind, tasks[n - 1].dir, tasks[n - 1].label),
        )
    } else {
        all_lost(tasks, inbox, n - 1)
    }
}

/// Those of the first `n` tasks that still run, in order.
pub open spec fn all_open(tasks: Seq<Task>, inbox: Seq<Inbox>, n: int) -> Seq<Task>
    decreases n,
{
    if n <= 0 {
        Seq::empty()
    } else if inbox[n - 1].end is Open {
        all_open(tasks, inbox, n - 1).push(tasks[n - 1])
    } else {
        all_open(tasks, inbox, n - 1)
    }
}

impl Pool {
    /// Enters a task into the table.
    pub fn spawn(&mut self, kind: Kind, dir: usize, label: String)
        ensures
            final(self).tasks@ == old(self).tasks@.push(Task { kind, label, dir }),
    {
        self.tasks.push(Task { kind, label, dir });
    }

    /// How many tasks run.
    pub fn running(&self) -> (r: usize)
        ensures
            r == self.tasks@.len(),
    {
        self.tasks.len()
    }

    /// Whether a task runs for the directory.
    pub fn is_busy(&self, dir: usize) -> (r: bool)
        ensures
            r == busy(self.tasks@, dir),
    {
        let mut i: usize = 0;
        while i < self.tasks.len()
            invariant
                i <= self.tasks.len(),
                forall|j: int| 0 <= j < i ==> (#[trigger] self.tasks@[j]).dir != dir,
            decreases self.tasks.len() - i,
        {
            if self.tasks[i].dir == dir {
                return true;
            }
            i += 1;
        }
        false
    }

    /// Whether a task that changes the working copy runs for the directory. Reading may take a
    /// while, but it keeps nobody from committing.
    pub fn is_writing(&self, dir: usize) -> (r: bool)
        ensures
            r == written(self.tasks@, dir),
    {
        let mut i: usize = 0;
        while i < self.tasks.len()
            invariant
                i <= self.tasks.len(),
                forall|j: int|
                    0 <= j < i ==> !((#[trigger] self.tasks@[j]).dir == dir
                        && self.tasks@[j].kind.writes()),
            decreases self.tasks.len() - i,
        {
            if self.tasks[i].dir == dir && self.tasks[i].kind.writing() {
                return true;
            }
            i += 1;
        }
        false
    }

    /// The label of the first task that runs for the directory.
    pub fn busy_label(&self, dir: usize) -> (r: Option<String>)
        ensures
            match r {
                Some(t) => first_label(self.tasks@, dir) == Some(t@),
                None => first_label(self.tasks@, dir) is None,
            },
    {
        let ghost all = self.tasks@;
        let mut i: usize = 0;
        assert(all.subrange(0, all.len() as int) =~= all);
        while i < self.tasks.len()
            invariant
                i <= self.tasks.len(),
                all == self.tasks@,
                first_label(all, dir) == first_label(
                    all.subrange(i as int, all.len() as int),
                    dir,
                ),
            decreases self.tasks.len() - i,
        {
            let ghost rest = all.subrange(i as int, all.len() as int);
            assert(rest.drop_first() =~= all.subrange(i + 1, all.len() as int));
            if self.tasks[i].dir == dir {
                return Some(self.tasks[i].label.clone());
            }
            i += 1;
        }
        None
    }

    /// Whether a task of `kind` runs for the directory.
    pub fn has(&self, kind: Kind, dir: usize) -> (r: bool)
        ensures
            r == runs(self.tasks@, kind, dir),
    {
        let mut i: usize = 0;
        while i < self.tasks.len()
            invariant
                i <= self.tasks.len(),
                forall|j: int|
                    0 <= j < i ==> !((#[trigger] self.tasks@[j]).kind == kind && self.tasks@[j].dir
                        == dir),
            decreases self.tasks.len() - i,
        {
            if self.tasks[i].kind == kind && self.tasks[i].dir == dir {
                return true;
            }
            i += 1;
        }
        false
    }

    /// Takes in what the tasks have sent, one inbox for each task in the order of the table, and
    /// takes those that have ended out of the table.
    pub fn poll(&mut self, inbox: Vec<Inbox>) -> (r: Polled)
        requires
            inbox@.len() == old(self).tasks@.len(),
        ensures
            r.lines@ == all_lines(inbox@, inbox@.len() as int),
            r.done@ == all_done(old(self).tasks@, inbox@, inbox@.len() as int),
            r.stranded@ == all_lost(old(self).tasks@, inbox@, inbox@.len() as int),
            final(self).tasks@ == all_open(old(self).tasks@, inbox@, inbox@.len() as int),
    {
        let ghost tasks = self.tasks@;
        let ghost boxes = inbox@;
        let mut rest = inbox;
        let mut lines: Vec<String> = Vec::new();
        let mut done: Vec<(Kind, usize, Data)> = Vec::new();
        let mut stranded: Vec<(Kind, usize, String)> = Vec::new();
        let mut left: Vec<Task> = Vec::new();
        let ghost mut n: int = 0;
        assert(boxes.subrange(0, boxes.len() as int) =~= boxes);
        assert(tasks.subrange(0, tasks.len() as int) =~= tasks);
        while rest.len() > 0
            invariant
                0 <= n <= boxes.len(),
                boxes.len() == tasks.len(),
                rest@ == boxes.subrange(n, boxes.len() as int),
                self.tasks@ == tasks.subrange(n, tasks.len() as int),
                lines@ == all_lines(boxes, n),
                done@ == all_done(tasks, boxes, n),
                stranded@ == all_lost(tasks, boxes, n),
                left@ == all_open(tasks, boxes, n),
            decreases rest.len(),
        {
            let ghost before = self.tasks@;
            let ghost boxes_before = rest@;
            let task = self.tasks.remove(0);
            let one = rest.remove(0);
            assert(self.tasks@ =~= tasks.subrange(n + 1, tasks.len() as int));
            assert(rest@ =~= boxes.subrange(n + 1, boxes.len() as int));
            assert(task == tasks[n] && one == boxes[n]);
            let mut sent = one.lines;
            lines.append(&mut sent);
            match one.end {
                End::Open => {
                    left.push(task);
                },
                End::Done(data) => {
                    done.push((task.kind, task.dir, data));
                },
                End::Lost => {
                    stranded.push((task.kind, task.dir, task.label));
                },
            }
            proof {
                n = n + 1;
            }
        }
        self.tasks = left;
        Polled { lines, done, stranded }
    }
}

/// No task gets lost: each one still runs, has handed its result back, or is reported as gone.
pub proof fn law_poll_keeps_account(tasks: Seq<Task>, inbox: Seq<Inbox>, n: int)
    requires
        0 <= n <= tasks.len(),
        tasks.len() == inbox.len(),
    ensures
        all_open(tasks, inbox, n).len() + all_done(tasks, inbox, n).len() + all_lost(
            tasks,
            inbox,
            n,
        ).len() == n,
    decreases n,
{
    if n > 0 {
        law_poll_keeps_account(tasks, inbox, n - 1);
    }
}

/// Reading never counts as writing, and what writes is busy.
pub proof fn law_writing_is_busy(tasks: Seq<Task>, dir: usize)
    ensures
        written(tasks, dir) ==> busy(tasks, dir),
        (forall|i: int| 0 <= i < tasks.len() ==> !(#[trigger] tasks[i]).kind.writes()) ==> !written(
            tasks,
            dir,
        ),
{
}

/// The tasks that change a working copy are updates, commits, upkeep and relocations.
pub proof fn law_what_writes(kind: Kind)
    ensures
        kind.writes() <==> kind == Kind::Update || kind == Kind::Commit || kind == Kind::Maintain
            || kind == Kind::Relocate,
{
}

/// Positions in order, all of them below `n`.
pub open spec fn ascends(at: Seq<int>, n: int) -> bool {
    &&& forall|k: int| 0 <= k < at.len() ==> 0 <= #[trigger] at[k] < n
    &&& forall|j: int, k: int| 0 <= j < k < at.len() ==> #[trigger] at[j] < #[trigger] at[k]
}

proof fn lemma_push_place(at: Seq<int>, n: int)
    requires
        0 <= n,
        ascends(at, n),
    ensures
        ascends(at.push(n), n + 1),
        ascends(at, n + 1),
        forall|i: int| #[trigger] at.push(n).contains(i) <==> at.contains(i) || i == n,
{
    let all = at.push(n);
    assert forall|i: int| #[trigger] all.contains(i) <==> at.contains(i) || i == n by {
        if at.contains(i) {
            let k = choose|k: int| 0 <= k < at.len() && at[k] == i;
            assert(all[k] == i);
        }
        assert(all[at.len() as int] == n);
        if all.contains(i) {
            let k = choose|k: int| 0 <= k < all.len() && all[k] == i;
            if k < at.len() {
                assert(at[k] == i);
            }
        }
    }
}

/// Every task ends up in one place, in order: a task that has handed something back gives just
/// that, one that is gone without a result is told of as lost, and every other one runs on.
pub proof fn law_every_task_has_its_end(tasks: Seq<Task>, inbox: Seq<Inbox>, n: int) -> (at: (
    Seq<int>,
    Seq<int>,
    Seq<int>,
))
    requires
        0 <= n <= tasks.len(),
        tasks.len() == inbox.len(),
    ensures
        ascends(at.0, n) && ascends(at.1, n) && ascends(at.2, n),
        at.0.len() == all_done(tasks, inbox, n).len(),
        at.1.len() == all_lost(tasks, inbox, n).len(),
        at.2.len() == all_open(tasks, inbox, n).len(),
        forall|i: int| #[trigger] at.0.contains(i) <==> 0 <= i < n && inbox[i].end is Done,
        forall|i: int| #[trigger] at.1.contains(i) <==> 0 <= i < n && inbox[i].end is Lost,
        forall|i: int| #[trigger] at.2.contains(i) <==> 0 <= i < n && inbox[i].end is Open,
        forall|k: int|
            0 <= k < at.0.len() ==> {
                let r = #[trigger] all_done(tasks, inbox, n)[k];
                r.0 == tasks[at.0[k]].kind && r.1 == tasks[at.0[k]].dir && inbox[at.0[k]].end
                    == End::Done(r.2)
            },
        forall|k: int|
            0 <= k < at.1.len() ==> {
                let r = #[trigger] all_lost(tasks, inbox, n)[k];
                r.0 == tasks[at.1[k]].kind && r.1 == tasks[at.1[k]].dir && r.2
                    == tasks[at.1[k]].label
            },
        forall|k: int|
            0 <= k < at.2.len() ==> #[trigger] all_open(tasks, inbox, n)[k] == tasks[at.2[k]],
    decreases n,
{
    if n == 0 {
        let none = Seq::<int>::empty();
        assert(forall|i: int| !none.contains(i));
        (none, none, none)
    } else {
        let at = law_every_task_has_its_end(tasks, inbox, n - 1);
        let done = all_done(tasks, inbox, n - 1);
        let lost = all_lost(tasks, inbox, n - 1);
        let open = all_open(tasks, inbox, n - 1);
        lemma_push_place(at.0, n - 1);
        lemma_push_place(at.1, n - 1);
        lemma_push_place(at.2, n - 1);
        match inbox[n - 1].end {
            End::Done(_) => {
                let r = (at.0.push(n - 1), at.1, at.2);
                assert forall|k: int| 0 <= k < r.0.len() implies {
                    let x = #[trigger] all_done(tasks, inbox, n)[k];
                    x.0 == tasks[r.0[k]].kind && x.1 == tasks[r.0[k]].dir && inbox[r.0[k]].end
                        == End::Done(x.2)
                } by {
                    if k < at.0.len() {
                        assert(all_done(tasks, inbox, n)[k] == done[k]);
                    }
                }
                r
            },
            End::Lost => {
                let r = (at.0, at.1.push(n - 1), at.2);
                assert forall|k: int| 0 <= k < r.1.len() implies {
                    let x = #[trigger] all_lost(tasks, inbox, n)[k];
                    x.0 == tasks[r.1[k]].kind && x.1 == tasks[r.1[k]].dir && x.2
                        == tasks[r.1[k]].label
                } by {
                    if k < at.1.len() {
                        assert(all_lost(tasks, inbox, n)[k] == lost[k]);
                    }
                }
                r
            },
            End::Open => {
                let r = (at.0, at.1, at.2.push(n - 1));
                assert forall|k: int| 0 <= k < r.2.len() implies #[trigger] all_open(
                    tasks,
                    inbox,
                    n,
                )[k] == tasks[r.2[k]] by {
                    if k < at.2.len() {
                        assert(all_open(tasks, inbox, n)[k] == open[k]);
                    }
                }
                r
            },
        }
    }
}

/// A directory is named after the first of its tasks, and after none where it has none.
pub proof fn law_the_first_task_gives_the_label(tasks: Seq<Task>, dir: usize, i: int)
    ensures
        0 <= i < tasks.len() && tasks[i].dir == dir && (forall|j: int|
            0 <= j < i ==> (#[trigger] tasks[j]).dir != dir) ==> first_label(tasks, dir) == Some(
            tasks[i].label@,
        ),
        (forall|j: int| 0 <= j < tasks.len() ==> (#[trigger] tasks[j]).dir != dir) ==> first_label(
            tasks,
            dir,
        ) is None,
    decreases tasks.len(),
{
    if tasks.len() > 0 && tasks[0].dir != dir {
        let rest = tasks.drop_first();
        law_the_first_task_gives_the_label(rest, dir, i - 1);
        if forall|j: int| 0 <= j < i ==> (#[trigger] tasks[j]).dir != dir {
            assert forall|j: int| 0 <= j < i - 1 && j < rest.len() implies (
            #[trigger] rest[j]).dir != dir by {
                assert(rest[j] == tasks[j + 1]);
            }
        }
        if forall|j: int| 0 <= j < tasks.len() ==> (#[trigger] tasks[j]).dir != dir {
            assert forall|j: int| 0 <= j < rest.len() implies (#[trigger] rest[j]).dir != dir by {
                assert(rest[j] == tasks[j + 1]);
            }
        }
    }
}

} // verus!
