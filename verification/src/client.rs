//! The command lines of the Subversion client, and what its replies come to. Commands are plain
//! data here: whoever runs one hands the reply back.

use vstd::prelude::*;
use crate::replies;
use crate::svn::{
    decode_bytes, decoded, encode_gbk, gbk_bytes, log_views, status_views, LogEntry, LogView, Run,
    StatusEntry, WcInfo,
};
use crate::text;
use crate::xml;

verus! {

/// A client, and who it logs in as.
#[derive(Debug)]
pub struct Svn {
    pub exe: String,
    pub username: String,
    pub password: String,
}

impl Clone for Svn {
    fn clone(&self) -> (r: Svn)
        ensures
            r == *self,
    {
        Svn {
            exe: self.exe.clone(),
            username: self.username.clone(),
            password: self.password.clone(),
        }
    }
}

impl Default for Svn {
    fn default() -> (r: Svn)
        ensures
            r.exe@.len() == 0,
            r.username@.len() == 0,
            r.password@.len() == 0,
    {
        Svn { exe: String::new(), username: String::new(), password: String::new() }
    }
}

/// A command of the client: its arguments, and where to run it.
#[derive(Debug)]
pub struct Invocation {
    pub args: Vec<String>,
    pub cwd: Option<String>,
}

/// The view of an `Invocation`.
pub struct InvocationView {
    pub args: Seq<Seq<char>>,
    pub cwd: Option<Seq<char>>,
}

impl View for Invocation {
    type V = InvocationView;

    open spec fn view(&self) -> InvocationView {
        InvocationView {
            args: text::views(self.args@),
            cwd: match self.cwd {
                Some(dir) => Some(dir@),
                None => None,
            },
        }
    }
}

/// The texts of a list of words.
pub open spec fn words(list: Seq<&str>) -> Seq<Seq<char>> {
    Seq::new(list.len(), |i: int| list[i]@)
}

/// The arguments that every command begins with: nothing may be asked, certificates are taken as
/// they come, and who logs in is said where that is set.
pub open spec fn common_args(username: Seq<char>, password: Seq<char>) -> Seq<Seq<char>> {
    let always = seq![
        "--non-interactive"@,
        "--trust-server-cert-failures=unknown-ca,cn-mismatch,expired,not-yet-valid,other"@,
    ];
    if text::trim(username).len() == 0 {
        always
    } else {
        always + seq!["--username"@, text::trim(username), "--password"@, password]
    }
}

fn add_word(args: &mut Vec<String>, word: &str)
    ensures
        text::views(final(args)@) == text::views(old(args)@).push(word@),
{
    let ghost before = args@;
    args.push(word.to_owned());
    assert(text::views(args@) =~= text::views(before).push(word@));
}

fn add_words(args: &mut Vec<String>, list: &[&str])
    ensures
        text::views(final(args)@) == text::views(old(args)@) + words(list@),
{
    let ghost start = text::views(args@);
    let mut i: usize = 0;
    assert(start + words(list@).take(0) =~= start);
    while i < list.len()
        invariant
            i <= list.len(),
            text::views(args@) == start + words(list@).take(i as int),
        decreases list.len() - i,
    {
        add_word(args, list[i]);
        i += 1;
        assert(start + words(list@).take(i as int) =~= (start + words(list@).take(i - 1)).push(
            words(list@)[i - 1],
        ));
    }
    assert(words(list@).take(i as int) =~= words(list@));
}

fn add_list(args: &mut Vec<String>, list: &Vec<String>)
    ensures
        text::views(final(args)@) == text::views(old(args)@) + text::views(list@),
{
    let ghost start = text::views(args@);
    let mut i: usize = 0;
    assert(start + text::views(list@).take(0) =~= start);
    while i < list.len()
        invariant
            i <= list.len(),
            text::views(args@) == start + text::views(list@).take(i as int),
        decreases list.len() - i,
    {
        add_word(args, list[i].as_str());
        i += 1;
        assert(start + text::views(list@).take(i as int) =~= (start + text::views(list@).take(
            i - 1,
        )).push(text::views(list@)[i - 1]));
    }
    assert(text::views(list@).take(i as int) =~= text::views(list@));
}

impl Svn {
    /// The command with the given words behind the common arguments, run anywhere.
    pub open spec fn called(self, list: Seq<Seq<char>>) -> InvocationView {
        InvocationView { args: common_args(self.username@, self.password@) + list, cwd: None }
    }

    /// The arguments that every command begins with.
    pub fn global(&self) -> (r: Vec<String>)
        ensures
            text::views(r@) == common_args(self.username@, self.password@),
    {
        let mut args: Vec<String> = Vec::new();
        add_word(&mut args, "--non-interactive");
        add_word(
            &mut args,
            "--trust-server-cert-failures=unknown-ca,cn-mismatch,expired,not-yet-valid,other",
        );
        let user = text::trimmed(self.username.as_str());
        if !user.as_str().is_empty() {
            add_word(&mut args, "--username");
            add_word(&mut args, user.as_str());
            add_word(&mut args, "--password");
            add_word(&mut args, self.password.as_str());
        }
        assert(text::views(args@) =~= common_args(self.username@, self.password@));
        args
    }

    fn call(&self, list: &[&str]) -> (r: Invocation)
        ensures
            r@ == self.called(words(list@)),
    {
        let mut args = self.global();
        add_words(&mut args, list);
        Invocation { args, cwd: None }
    }

    /// Whether there is a client to run. `is_file` tells whether its path names a file.
    pub fn available(&self, is_file: bool) -> (r: bool)
        ensures
            r == (self.exe@.len() > 0 && is_file),
    {
        !self.exe.as_str().is_empty() && is_file
    }

    /// The client's version.
    pub fn version(&self) -> (r: Invocation)
        ensures
            r@ == self.called(seq!["--version"@, "--quiet"@]),
    {
        let r = self.call(&["--version", "--quiet"]);
        assert(r@.args =~= self.called(seq!["--version"@, "--quiet"@]).args);
        r
    }

    /// `svn info` on a path or an address.
    pub fn info(&self, target: &str) -> (r: Invocation)
        ensures
            r@ == self.called(seq!["info"@, "--xml"@, target@]),
    {
        let r = self.call(&["info", "--xml", target]);
        assert(r@.args =~= self.called(seq!["info"@, "--xml"@, target@]).args);
        r
    }

    /// `svn status` on a working copy.
    pub fn status(&self, dir: &str) -> (r: Invocation)
        ensures
            r@ == self.called(seq!["status"@, "--xml"@, dir@]),
    {
        let r = self.call(&["status", "--xml", dir]);
        assert(r@.args =~= self.called(seq!["status"@, "--xml"@, dir@]).args);
        r
    }

    /// `svn status` on a working copy, held against the server.
    pub fn out_of_date(&self, dir: &str) -> (r: Invocation)
        ensures
            r@ == self.called(seq!["status"@, "-u"@, "--xml"@, dir@]),
    {
        let r = self.call(&["status", "-u", "--xml", dir]);
        assert(r@.args =~= self.called(seq!["status"@, "-u"@, "--xml"@, dir@]).args);
        r
    }

    /// The log of a path or an address, newest first. It is read from the server in any case: left
    /// to itself the client would begin at the revision of the working copy.
    pub fn log(&self, target: &str, limit: i64, author: &str) -> (r: Invocation)
        ensures
            r@ == self.called(log_args(target@, "HEAD:1"@, limit as int, author@)),
    {
        self.log_in(target, "HEAD:1", limit, author)
    }

    /// The log of a path or an address over given revisions. A limit of 0 or less is none.
    pub fn log_in(&self, target: &str, revspec: &str, limit: i64, author: &str) -> (r: Invocation)
        ensures
            r@ == self.called(log_args(target@, revspec@, limit as int, author@)),
    {
        let mut args = self.global();
        let ghost start = text::views(args@);
        add_words(&mut args, &["log", "--xml", "-v", "-r", revspec]);
        if limit > 0 {
            let count = text::integer(limit);
            add_words(&mut args, &["-l", count.as_str()]);
        }
        add_word(&mut args, target);
        if !author.is_empty() {
            add_words(&mut args, &["--search", author]);
        }
        assert(text::views(args@) =~= start + log_args(target@, revspec@, limit as int, author@));
        Invocation { args, cwd: None }
    }

    /// What to run after a log that failed: an old client does not know how to search, so that it
    /// is asked for everybody's records.
    pub fn log_again(
        &self,
        run: &Run,
        target: &str,
        revspec: &str,
        limit: i64,
        author: &str,
    ) -> (r: Option<Invocation>)
        ensures
            match r {
                Some(i) => !run.ok && author@.len() > 0 && i@ == self.called(
                    log_args(target@, revspec@, limit as int, Seq::empty()),
                ),
                None => run.ok || author@.len() == 0,
            },
    {
        if !run.ok && !author.is_empty() {
            proof {
                reveal_strlit("");
            }
            let i = self.log_in(target, revspec, limit, "");
            assert(""@ =~= Seq::<char>::empty());
            Some(i)
        } else {
            None
        }
    }

    /// The credentials that the client keeps.
    pub fn auth_user(&self) -> (r: Invocation)
        ensures
            r@ == self.called(seq!["auth"@]),
    {
        let r = self.call(&["auth"]);
        assert(r@.args =~= self.called(seq!["auth"@]).args);
        r
    }

    /// `svn update`.
    pub fn update(&self, dir: &str) -> (r: Invocation)
        ensures
            r@ == self.called(seq!["update"@, dir@]),
    {
        let r = self.call(&["update", dir]);
        assert(r@.args =~= self.called(seq!["update"@, dir@]).args);
        r
    }

    /// The words of a comparison: `head`, what leaves white space out where that is asked for, and
    /// the target.
    pub fn diff_args(&self, head: &[&str], target: &str, ignore_white: bool) -> (r: Vec<String>)
        ensures
            text::views(r@) == diff_words(words(head@), target@, ignore_white),
    {
        let mut args: Vec<String> = Vec::new();
        assert(text::views(args@) =~= Seq::empty());
        add_words(&mut args, head);
        if ignore_white {
            add_words(&mut args, &["-x", "-w --ignore-eol-style"]);
        }
        add_word(&mut args, target);
        assert(text::views(args@) =~= diff_words(words(head@), target@, ignore_white));
        args
    }

    fn call_list(&self, list: &Vec<String>) -> (r: Invocation)
        ensures
            r@ == self.called(text::views(list@)),
    {
        let mut args = self.global();
        add_list(&mut args, list);
        Invocation { args, cwd: None }
    }

    /// What was changed in a path of the working copy.
    pub fn diff(&self, path: &str, ignore_white: bool) -> (r: Invocation)
        ensures
            r@ == self.called(
                diff_words(seq!["diff"@, "--internal-diff"@], path@, ignore_white),
            ),
    {
        let head: [&str; 2] = ["diff", "--internal-diff"];
        let list = self.diff_args(&head, path, ignore_white);
        assert(words(head@) =~= seq!["diff"@, "--internal-diff"@]);
        self.call_list(&list)
    }

    /// What one revision changed in a path or an address.
    pub fn diff_rev(&self, revision: &str, target: &str, ignore_white: bool) -> (r: Invocation)
        ensures
            r@ == self.called(
                diff_words(
                    seq!["diff"@, "-c"@, revision@, "--internal-diff"@],
                    target@,
                    ignore_white,
                ),
            ),
    {
        let head: [&str; 4] = ["diff", "-c", revision, "--internal-diff"];
        let list = self.diff_args(&head, target, ignore_white);
        assert(words(head@) =~= seq!["diff"@, "-c"@, revision@, "--internal-diff"@]);
        self.call_list(&list)
    }

    /// The version of a path that the working copy is based on. It is kept locally.
    pub fn cat_base(&self, path: &str) -> (r: Invocation)
        ensures
            r@ == self.called(seq!["cat"@, "-r"@, "BASE"@, path@]),
    {
        let r = self.call(&["cat", "-r", "BASE", path]);
        assert(r@.args =~= self.called(seq!["cat"@, "-r"@, "BASE"@, path@]).args);
        r
    }

    /// `svn cleanup`.
    pub fn cleanup(&self, dir: &str) -> (r: Invocation)
        ensures
            r@ == self.called(seq!["cleanup"@, dir@]),
    {
        let r = self.call(&["cleanup", dir]);
        assert(r@.args =~= self.called(seq!["cleanup"@, dir@]).args);
        r
    }

    /// Throws all changes of a working copy away.
    pub fn revert_all(&self, dir: &str) -> (r: Invocation)
        ensures
            r@ == self.called(seq!["revert"@, "--recursive"@, dir@]),
    {
        let r = self.call(&["revert", "--recursive", dir]);
        assert(r@.args =~= self.called(seq!["revert"@, "--recursive"@, dir@]).args);
        r
    }

    /// Settles all conflicts of a working copy with what stands in it.
    pub fn resolve_working(&self, dir: &str) -> (r: Invocation)
        ensures
            r@ == self.called(seq!["resolve"@, "--accept"@, "working"@, "--recursive"@, dir@]),
    {
        let r = self.call(&["resolve", "--accept", "working", "--recursive", dir]);
        assert(r@.args =~= self.called(seq!["resolve"@, "--accept"@, "working"@, "--recursive"@, dir@]).args);
        r
    }

    /// Changes the front of the address of a working copy.
    pub fn relocate(&self, dir: &str, from: &str, to: &str) -> (r: Invocation)
        ensures
            r@ == self.called(seq!["relocate"@, from@, to@, dir@]),
    {
        let r = self.call(&["relocate", from, to, dir]);
        assert(r@.args =~= self.called(seq!["relocate"@, from@, to@, dir@]).args);
        r
    }

    /// `svn add`, run in the working copy. `written` names the file that holds the paths, where
    /// they were too many for a command line.
    pub fn add(&self, dir: &str, targets: &Vec<String>, written: &Option<String>) -> (r: Invocation)
        ensures
            r@ == (InvocationView {
                args: target_args(seq!["add"@, "--force"@], text::views(targets@), *written),
                cwd: Some(dir@),
            }),
    {
        let mut head: Vec<String> = Vec::new();
        add_words(&mut head, &["add", "--force"]);
        assert(text::views(head@) =~= seq!["add"@, "--force"@]);
        Invocation { args: with_targets(head, targets, written), cwd: Some(dir.to_owned()) }
    }

    /// `svn delete`, run in the working copy. `written` is as for `add`.
    pub fn delete(&self, dir: &str, targets: &Vec<String>, written: &Option<String>) -> (r:
        Invocation)
        ensures
            r@ == (InvocationView {
                args: target_args(seq!["delete"@], text::views(targets@), *written),
                cwd: Some(dir@),
            }),
    {
        let mut head: Vec<String> = Vec::new();
        add_words(&mut head, &["delete"]);
        assert(text::views(head@) =~= seq!["delete"@]);
        Invocation { args: with_targets(head, targets, written), cwd: Some(dir.to_owned()) }
    }

    /// `svn commit`, run in the working copy. `written` is as for `add`; `message` names the file
    /// that holds the message.
    pub fn commit(
        &self,
        dir: &str,
        targets: &Vec<String>,
        written: &Option<String>,
        message: &str,
    ) -> (r: Invocation)
        ensures
            r@ == (InvocationView {
                args: common_args(self.username@, self.password@) + target_args(
                    seq!["commit"@, "--depth"@, "empty"@],
                    text::views(targets@),
                    *written,
                ) + seq!["--file"@, message@, "--encoding"@, "UTF-8"@],
                cwd: Some(dir@),
            }),
    {
        let mut head: Vec<String> = Vec::new();
        add_words(&mut head, &["commit", "--depth", "empty"]);
        assert(text::views(head@) =~= seq!["commit"@, "--depth"@, "empty"@]);
        let list = with_targets(head, targets, written);
        let mut args = self.global();
        add_list(&mut args, &list);
        let ghost front = text::views(args@);
        add_words(&mut args, &["--file", message, "--encoding", "UTF-8"]);
        assert(text::views(args@) =~= front + seq!["--file"@, message@, "--encoding"@, "UTF-8"@]);
        Invocation { args, cwd: Some(dir.to_owned()) }
    }

    /// A run of a client that could not be started, for the reason `why`.
    pub fn not_started(&self, why: &str) -> (r: Run)
        ensures
            !r.ok,
            r.code == -1,
            r.out@.len() == 0,
            r.err@ == "无法启动 "@ + self.exe@ + "："@ + why@,
    {
        let mut message = text::join3("无法启动 ", self.exe.as_str(), "：");
        message.append(why);
        Run::error(message.as_str())
    }
}

/// The words of a log.
pub open spec fn log_args(
    target: Seq<char>,
    revspec: Seq<char>,
    limit: int,
    author: Seq<char>,
) -> Seq<Seq<char>> {
    seq!["log"@, "--xml"@, "-v"@, "-r"@, revspec] + if limit > 0 {
        seq!["-l"@, text::signed(limit)]
    } else {
        Seq::empty()
    } + seq![target] + if author.len() > 0 {
        seq!["--search"@, author]
    } else {
        Seq::empty()
    }
}

/// The words of a comparison. What leaves white space out is one argument to the client's own
/// comparison.
pub open spec fn diff_words(head: Seq<Seq<char>>, target: Seq<char>, ignore_white: bool) -> Seq<
    Seq<char>,
> {
    head + if ignore_white {
        seq!["-x"@, "-w --ignore-eol-style"@]
    } else {
        Seq::empty()
    } + seq![target]
}

/// What leaves white space out of a comparison, as the output shows it.
pub fn diff_flags(ignore_white: bool) -> (r: String)
    ensures
        r@ == (if ignore_white {
            " -x \"-w --ignore-eol-style\""@
        } else {
            Seq::empty()
        }),
{
    if ignore_white {
        " -x \"-w --ignore-eol-style\"".to_owned()
    } else {
        String::new()
    }
}

// ---------------------------------------------------------------- many targets

/// How much of a command line the first `n` targets take.
pub open spec fn list_width(targets: Seq<Seq<char>>, n: int) -> int
    decreases n,
{
    if n <= 0 {
        0
    } else {
        list_width(targets, n - 1) + targets[n - 1].len() + 3
    }
}

/// The targets are too many for a command line.
pub open spec fn too_wide(targets: Seq<Seq<char>>) -> bool {
    list_width(targets, targets.len() as int) > 12000
}

/// The words of a command on many targets.
pub open spec fn target_args(
    head: Seq<Seq<char>>,
    targets: Seq<Seq<char>>,
    written: Option<String>,
) -> Seq<Seq<char>> {
    match written {
        Some(file) => head + seq!["--targets"@, file@],
        None => head + targets,
    }
}

proof fn lemma_width_grows(targets: Seq<Seq<char>>, a: int, b: int)
    requires
        0 <= a <= b <= targets.len(),
    ensures
        list_width(targets, a) <= list_width(targets, b),
    decreases b - a,
{
    if a < b {
        lemma_width_grows(targets, a, b - 1);
    }
}

/// What to write into a file of targets, in the encoding that a Chinese Windows reads; nothing
/// where a command line holds them.
pub fn targets_file(targets: &Vec<String>) -> (r: Option<Vec<u8>>)
    ensures
        match r {
            Some(bytes) => too_wide(text::views(targets@)) && bytes@ == gbk_bytes(
                text::joined(text::views(targets@), "\r\n"@),
            ),
            None => !too_wide(text::views(targets@)),
        },
{
    let ghost tv = text::views(targets@);
    let mut width: usize = 0;
    let mut i: usize = 0;
    while i < targets.len() && width <= 12000
        invariant
            i <= targets.len(),
            tv == text::views(targets@),
            width == list_width(tv, i as int) || (width > 12000 && list_width(tv, i as int)
                > 12000),
        decreases targets.len() - i,
    {
        let chars = text::chars_of(targets[i].as_str());
        assert(tv[i as int].len() == chars@.len());
        if chars.len() > 12000 {
            width = 12001;
        } else {
            width = width + chars.len() + 3;
        }
        i += 1;
    }
    proof {
        lemma_width_grows(tv, i as int, tv.len() as int);
    }
    if width > 12000 {
        let body = text::join_with(targets, "\r\n");
        Some(encode_gbk(body.as_str()))
    } else {
        None
    }
}

/// The words of a command on many targets. `written` names the file that holds them, where one
/// was written.
pub fn with_targets(head: Vec<String>, targets: &Vec<String>, written: &Option<String>) -> (r: Vec<
    String,
>)
    ensures
        text::views(r@) == target_args(text::views(head@), text::views(targets@), *written),
{
    let mut args = head;
    match written {
        Some(file) => {
            let ghost before = text::views(args@);
            add_words(&mut args, &["--targets", file.as_str()]);
            assert(text::views(args@) =~= before + seq!["--targets"@, file@]);
        },
        None => {
            add_list(&mut args, targets);
        },
    }
    args
}

// ---------------------------------------------------------------- replies

/// What a reply of `svn info` comes to; nothing where the command failed.
pub fn read_info(run: &Run) -> (r: Option<WcInfo>)
    ensures
        !run.ok ==> r is None,
        run.ok ==> match xml::document(run.out@) {
            Some(nodes) => replies::info_shown(replies::info_in(nodes), replies::info_view(r)),
            None => r is None,
        },
{
    if run.ok {
        replies::parse_info(run.out.as_str())
    } else {
        None
    }
}

/// The items in a reply of `svn status`; none where the command failed.
pub open spec fn status_read(run: Run, dir: Seq<char>) -> Seq<crate::svn::StatusView> {
    match xml::document(run.out@) {
        Some(nodes) => if run.ok {
            replies::status_ordered(replies::status_from(nodes, dir, 0))
        } else {
            Seq::empty()
        },
        None => Seq::empty(),
    }
}

/// The items in a reply of `svn status`; none where the command failed.
pub fn read_status(run: &Run, dir: &str) -> (r: Vec<StatusEntry>)
    ensures
        status_views(r@) == status_read(*run, dir@),
{
    let r = if run.ok {
        replies::parse_status(run.out.as_str(), dir)
    } else {
        Vec::new()
    };
    assert(status_views(r@) =~= status_read(*run, dir@));
    r
}

/// How many items of a reply of `svn status -u` the server has in a newer version; unknown where
/// the command failed.
pub fn read_out_of_date(run: &Run) -> (r: Option<usize>)
    ensures
        match r {
            Some(n) => run.ok && match xml::document(run.out@) {
                Some(nodes) => n == replies::behind_from(nodes, 0),
                None => n == 0,
            },
            None => !run.ok,
        },
{
    if run.ok {
        Some(replies::parse_out_of_date(run.out.as_str()))
    } else {
        None
    }
}

/// The version in a reply; none where the command failed.
pub fn read_version(run: &Run) -> (r: Option<String>)
    ensures
        match r {
            Some(t) => run.ok && t@ == text::trim(run.out@),
            None => !run.ok,
        },
{
    if run.ok {
        Some(text::trimmed(run.out.as_str()))
    } else {
        None
    }
}

/// Those of the first `n` records that are of `author`; all where nobody is asked for.
pub open spec fn by_author(entries: Seq<LogView>, author: Seq<char>, n: int) -> Seq<LogView>
    decreases n,
{
    if n <= 0 {
        Seq::empty()
    } else if author.len() == 0 || text::same_ascii(entries[n - 1].author, author) {
        by_author(entries, author, n - 1).push(entries[n - 1])
    } else {
        by_author(entries, author, n - 1)
    }
}

/// Those of the records that are of `author`, in order; all where nobody is asked for. An old
/// client may have given everybody's.
pub fn keep_author(entries: &Vec<LogEntry>, author: &str) -> (r: Vec<LogEntry>)
    ensures
        log_views(r@) == by_author(log_views(entries@), author@, entries@.len() as int),
{
    let ghost lv = log_views(entries@);
    let mut out: Vec<LogEntry> = Vec::new();
    let mut i: usize = 0;
    assert(log_views(out@) =~= Seq::empty());
    while i < entries.len()
        invariant
            i <= entries.len(),
            lv == log_views(entries@),
            log_views(out@) == by_author(lv, author@, i as int),
        decreases entries.len() - i,
    {
        assert(lv[i as int] == entries@[i as int]@);
        if author.is_empty() || text::equal_ignoring_case(entries[i].author.as_str(), author) {
            let ghost before = out@;
            let e = entries[i].clone();
            out.push(e);
            assert(log_views(out@) =~= log_views(before).push(e@));
        }
        i += 1;
    }
    out
}

/// `all` are the records in a reply of `svn log`, on the local clock.
pub open spec fn log_read(run: Run, all: Seq<LogView>) -> bool {
    match xml::document(run.out@) {
        Some(nodes) => if run.ok {
            replies::logs_shown(replies::logs_from(nodes, 0), all)
        } else {
            all.len() == 0
        },
        None => all.len() == 0,
    }
}

/// The records of `author` in a reply of `svn log`; none where the command failed.
pub fn read_log(run: &Run, author: &str) -> (r: Vec<LogEntry>)
    ensures
        exists|all: Seq<LogView>| #[trigger]
            log_read(*run, all) && log_views(r@) == by_author(all, author@, all.len() as int),
{
    let all = if run.ok {
        replies::parse_log(run.out.as_str())
    } else {
        Vec::new()
    };
    assert(log_read(*run, log_views(all@)));
    keep_author(&all, author)
}

/// Why the base version of a file could not be had; nothing where it could.
pub fn read_base(ok: bool, err: &[u8]) -> (r: Option<String>)
    ensures
        match r {
            Some(t) => !ok && t@ == text::trim(decoded(err@)),
            None => ok,
        },
{
    if ok {
        None
    } else {
        let e = decode_bytes(err);
        Some(text::trimmed(e.as_str()))
    }
}

// ---------------------------------------------------------------- laws

/// Of what was read, the records of the author are kept, in order; their names may differ in the
/// case of ASCII letters. Where nobody is asked for, all are kept.
pub proof fn law_records_of_the_author_are_kept(
    entries: Seq<LogView>,
    author: Seq<char>,
    n: int,
)
    requires
        0 <= n <= entries.len(),
    ensures
        author.len() > 0 ==> by_author(entries, author, n) == entries.take(n).filter(
            |e: LogView|
                e.author.len() == author.len() && forall|i: int|
                    0 <= i < author.len() ==> text::ascii_lower(#[trigger] e.author[i])
                        == text::ascii_lower(author[i]),
        ),
        author.len() == 0 ==> by_author(entries, author, n) == entries.take(n),
    decreases n,
{
    reveal(Seq::filter);
    if n > 0 {
        law_records_of_the_author_are_kept(entries, author, n - 1);
        let e = entries[n - 1];
        assert(entries.take(n).drop_last() =~= entries.take(n - 1));
        assert(entries.take(n).last() == e);
        assert(entries.take(n) =~= entries.take(n - 1).push(e));
        assert(text::same_ascii(e.author, author) <==> e.author.len() == author.len() && forall|
            i: int,
        |
            0 <= i < author.len() ==> text::ascii_lower(#[trigger] e.author[i])
                == text::ascii_lower(author[i]));
    } else {
        assert(entries.take(0) =~= Seq::empty());
    }
}

/// No command may ask anything. A name goes with the password that was set for it, without white
/// space around it; without a name no password is handed over.
pub proof fn law_passwords_go_with_names(username: Seq<char>, password: Seq<char>)
    ensures
        ({
            let args = common_args(username, password);
            &&& args.len() >= 2 && args[0] == "--non-interactive"@
            &&& text::trim(username).len() == 0 <==> args.len() == 2
            &&& text::trim(username).len() > 0 ==> args.len() == 6 && args[2] == "--username"@
                && args[3] == text::trim(username) && args[4] == "--password"@ && args[5]
                == password
        }),
{
}

/// Targets go into a file once they take more than 12000 characters, each counted with three more
/// for what stands around it.
pub proof fn law_wide_lists_go_into_a_file(targets: Seq<Seq<char>>)
    ensures
        too_wide(targets) <==> targets.fold_left(
            0int,
            |sum: int, t: Seq<char>| sum + t.len() + 3,
        ) > 12000,
{
    lemma_list_width(targets, targets.len() as int);
    assert(targets.take(targets.len() as int) =~= targets);
}

proof fn lemma_list_width(targets: Seq<Seq<char>>, n: int)
    requires
        0 <= n <= targets.len(),
    ensures
        list_width(targets, n) == targets.take(n).fold_left(
            0int,
            |sum: int, t: Seq<char>| sum + t.len() + 3,
        ),
    decreases n,
{
    if n > 0 {
        lemma_list_width(targets, n - 1);
        assert(targets.take(n).drop_last() =~= targets.take(n - 1));
        assert(targets.take(n).last() == targets[n - 1]);
    }
}

/// The history of a target is asked for by its revisions. A limit and a name go along only where
/// there is one, and the name comes last.
pub proof fn law_what_a_log_is_asked_for(
    target: Seq<char>,
    revspec: Seq<char>,
    limit: int,
    author: Seq<char>,
)
    ensures
        ({
            let args = log_args(target, revspec, limit, author);
            let k = if limit > 0 {
                7int
            } else {
                5int
            };
            &&& args[0] == "log"@ && args[3] == "-r"@ && args[4] == revspec
            &&& limit > 0 ==> args[5] == "-l"@ && args[6] == text::signed(limit)
            &&& args[k] == target
            &&& author.len() > 0 ==> args.len() == k + 3 && args[k + 1] == "--search"@ && args[k
                + 2] == author
            &&& author.len() == 0 ==> args.len() == k + 1
        }),
{
}

} // verus!
