//! What Subversion reports: states of items, runs of the client, and the replies that it writes
//! as XML.

use encoding_rs::GBK;
use vstd::prelude::*;
use vstd::utf8::{decode_utf8, valid_utf8};

use crate::text;

verus! {

// ---------------------------------------------------------------- bytes and text

/// `std::str::from_utf8` takes exactly the well-formed UTF-8 and reads the characters that it
/// encodes.
#[verifier::external_body]
fn utf8_text(bytes: &[u8]) -> (r: Option<String>)
    ensures
        match r {
            Some(t) => valid_utf8(bytes@) && t@ == decode_utf8(bytes@),
            None => !valid_utf8(bytes@),
        },
{
    std::str::from_utf8(bytes).ok().map(str::to_owned)
}

/// The text that encoding_rs reads in bytes as GBK, or as what a byte order mark before them says.
pub uninterp spec fn gbk_text(bytes: Seq<u8>) -> Seq<char>;

/// `encoding_rs::Encoding::decode` on `GBK`. The code page is encoding_rs's and is not spelled out
/// here.
#[verifier::external_body]
fn decode_gbk(bytes: &[u8]) -> (r: String)
    ensures
        r@ == gbk_text(bytes@),
{
    GBK.decode(bytes).0.into_owned()
}

/// The bytes that encoding_rs writes for a text in GBK.
pub uninterp spec fn gbk_bytes(text: Seq<char>) -> Seq<u8>;

/// `encoding_rs::Encoding::encode` on `GBK`. The code page is encoding_rs's and is not spelled out
/// here.
#[verifier::external_body]
pub(crate) fn encode_gbk(s: &str) -> (r: Vec<u8>)
    ensures
        r@ == gbk_bytes(s@),
{
    GBK.encode(s).0.into_owned()
}

/// The text in bytes that the client wrote: UTF-8 where they are that, GBK otherwise.
pub open spec fn decoded(bytes: Seq<u8>) -> Seq<char> {
    if valid_utf8(bytes) {
        decode_utf8(bytes)
    } else {
        gbk_text(bytes)
    }
}

/// The text in bytes that the client wrote. On a Chinese Windows plain output may be GBK; what is
/// written as XML is always UTF-8.
pub fn decode_bytes(bytes: &[u8]) -> (r: String)
    ensures
        r@ == decoded(bytes@),
{
    match utf8_text(bytes) {
        Some(t) => t,
        None => decode_gbk(bytes),
    }
}

// ---------------------------------------------------------------- runs

/// How a run of the client ended.
pub struct Run {
    pub ok: bool,
    pub code: i32,
    pub out: String,
    pub err: String,
}

/// What a failed run is reported as: what it wrote as errors, else what it wrote, else its code.
pub open spec fn run_summary(code: int, out: Seq<char>, err: Seq<char>) -> Seq<char> {
    if text::trim(err).len() > 0 {
        text::trim(err)
    } else if text::trim(out).len() > 0 {
        text::trim(out)
    } else {
        "命令退出码 "@ + text::signed(code)
    }
}

impl Run {
    pub fn new(ok: bool, code: i32, out: String, err: String) -> (r: Run)
        ensures
            r == (Run { ok, code, out, err }),
    {
        Run { ok, code, out, err }
    }

    /// A run that never started, for the reason in `message`.
    pub fn error(message: &str) -> (r: Run)
        ensures
            !r.ok,
            r.code == -1,
            r.out@.len() == 0,
            r.err@ == message@,
    {
        Run::new(false, -1, String::new(), message.to_owned())
    }

    /// What the run is reported as.
    pub open spec fn told(self) -> Seq<char> {
        run_summary(self.code as int, self.out@, self.err@)
    }

    /// What to report of a run that failed.
    pub fn summary(&self) -> (r: String)
        ensures
            r@ == self.told(),
    {
        let err = text::trimmed(self.err.as_str());
        if !err.as_str().is_empty() {
            return err;
        }
        let out = text::trimmed(self.out.as_str());
        if !out.as_str().is_empty() {
            return out;
        }
        let code = text::integer(self.code as i64);
        text::join2("命令退出码 ", code.as_str())
    }
}

// ---------------------------------------------------------------- states of items

/// The state of an item of a working copy.
#[derive(Clone, Copy, Debug, PartialEq, Eq, Structural)]
pub enum Item {
    Added,
    Modified,
    Deleted,
    Replaced,
    Unversioned,
    Missing,
    Conflict,
    Ignored,
    External,
    Incomplete,
    Normal,
    Other,
}

/// The state that a word of `svn status --xml` stands for.
pub open spec fn item_named(raw: Seq<char>) -> Item {
    if raw == "added"@ {
        Item::Added
    } else if raw == "modified"@ {
        Item::Modified
    } else if raw == "deleted"@ {
        Item::Deleted
    } else if raw == "replaced"@ {
        Item::Replaced
    } else if raw == "unversioned"@ {
        Item::Unversioned
    } else if raw == "missing"@ {
        Item::Missing
    } else if raw == "conflicted"@ {
        Item::Conflict
    } else if raw == "ignored"@ {
        Item::Ignored
    } else if raw == "external"@ {
        Item::External
    } else if raw == "incomplete"@ {
        Item::Incomplete
    } else if raw == "normal"@ {
        Item::Normal
    } else {
        Item::Other
    }
}

impl Item {
    /// The letter that stands for the state.
    pub open spec fn letter(self) -> char {
        match self {
            Item::Added => 'A',
            Item::Modified => 'M',
            Item::Deleted => 'D',
            Item::Replaced => 'R',
            Item::Unversioned => '?',
            Item::Missing => '!',
            Item::Conflict => 'C',
            Item::Ignored => 'I',
            Item::External => 'X',
            Item::Incomplete => '~',
            Item::Normal => ' ',
            Item::Other => ' ',
        }
    }

    /// The word that stands for the state.
    pub open spec fn word(self) -> Seq<char> {
        match self {
            Item::Added => "新增"@,
            Item::Modified => "修改"@,
            Item::Deleted => "删除"@,
            Item::Replaced => "替换"@,
            Item::Unversioned => "未版本化"@,
            Item::Missing => "已丢失"@,
            Item::Conflict => "冲突"@,
            Item::Ignored => "已忽略"@,
            Item::External => "外部引用"@,
            Item::Incomplete => "不完整"@,
            Item::Normal => "正常"@,
            Item::Other => "未知"@,
        }
    }

    /// The item can be committed as it is.
    pub open spec fn commits(self) -> bool {
        self is Added || self is Modified || self is Deleted || self is Replaced
    }

    /// The item can be committed, at most after an `svn add` or `svn delete`.
    pub open spec fn uploads(self) -> bool {
        self.commits() || self is Unversioned || self is Missing
    }

    /// Somebody has to look at the item before it can be committed.
    pub open spec fn blocks(self) -> bool {
        self is Conflict || self is Incomplete
    }

    /// The colour of the state, as red, green and blue.
    pub open spec fn rgb(self) -> (u8, u8, u8) {
        match self {
            Item::Added => (60, 190, 110),
            Item::Modified => (90, 160, 240),
            Item::Deleted => (235, 90, 90),
            Item::Replaced => (185, 140, 240),
            Item::Conflict => (255, 80, 160),
            Item::Missing => (235, 90, 90),
            Item::Unversioned => (150, 150, 150),
            _ => (170, 170, 170),
        }
    }

    /// The state that a word of `svn status --xml` stands for.
    pub fn from_svn(raw: &str) -> (r: Item)
        ensures
            r == item_named(raw@),
    {
        if text::same(raw, "added") {
            Item::Added
        } else if text::same(raw, "modified") {
            Item::Modified
        } else if text::same(raw, "deleted") {
            Item::Deleted
        } else if text::same(raw, "replaced") {
            Item::Replaced
        } else if text::same(raw, "unversioned") {
            Item::Unversioned
        } else if text::same(raw, "missing") {
            Item::Missing
        } else if text::same(raw, "conflicted") {
            Item::Conflict
        } else if text::same(raw, "ignored") {
            Item::Ignored
        } else if text::same(raw, "external") {
            Item::External
        } else if text::same(raw, "incomplete") {
            Item::Incomplete
        } else if text::same(raw, "normal") {
            Item::Normal
        } else {
            Item::Other
        }
    }

    /// The letter that stands for the state.
    pub fn mark(self) -> (r: char)
        ensures
            r == self.letter(),
    {
        match self {
            Item::Added => 'A',
            Item::Modified => 'M',
            Item::Deleted => 'D',
            Item::Replaced => 'R',
            Item::Unversioned => '?',
            Item::Missing => '!',
            Item::Conflict => 'C',
            Item::Ignored => 'I',
            Item::External => 'X',
            Item::Incomplete => '~',
            Item::Normal => ' ',
            Item::Other => ' ',
        }
    }

    /// The word that stands for the state.
    pub fn text(self) -> (r: &'static str)
        ensures
            r@ == self.word(),
    {
        match self {
            Item::Added => "新增",
            Item::Modified => "修改",
            Item::Deleted => "删除",
            Item::Replaced => "替换",
            Item::Unversioned => "未版本化",
            Item::Missing => "已丢失",
            Item::Conflict => "冲突",
            Item::Ignored => "已忽略",
            Item::External => "外部引用",
            Item::Incomplete => "不完整",
            Item::Normal => "正常",
            Item::Other => "未知",
        }
    }

    /// Whether the item can be committed as it is.
    pub fn committable(self) -> (r: bool)
        ensures
            r == self.commits(),
    {
        match self {
            Item::Added => true,
            Item::Modified => true,
            Item::Deleted => true,
            Item::Replaced => true,
            _ => false,
        }
    }

    /// Whether the item needs an `svn add` first.
    pub fn needs_add(self) -> (r: bool)
        ensures
            r == (self is Unversioned),
    {
        match self {
            Item::Unversioned => true,
            _ => false,
        }
    }

    /// Whether the item needs an `svn delete` first.
    pub fn needs_delete(self) -> (r: bool)
        ensures
            r == (self is Missing),
    {
        match self {
            Item::Missing => true,
            _ => false,
        }
    }

    /// Whether an upload takes the item along. Conflicts, incomplete, ignored and external items
    /// never go to the server by themselves.
    pub fn uploadable(self) -> (r: bool)
        ensures
            r == self.uploads(),
    {
        self.committable() || self.needs_add() || self.needs_delete()
    }

    /// The colour of the state, as red, green and blue.
    pub fn color(self) -> (r: (u8, u8, u8))
        ensures
            r == self.rgb(),
    {
        match self {
            Item::Added => (60, 190, 110),
            Item::Modified => (90, 160, 240),
            Item::Deleted => (235, 90, 90),
            Item::Replaced => (185, 140, 240),
            Item::Conflict => (255, 80, 160),
            Item::Missing => (235, 90, 90),
            Item::Unversioned => (150, 150, 150),
            _ => (170, 170, 170),
        }
    }

    /// Whether somebody has to look at the item before it can be committed.
    pub fn blocked(self) -> (r: bool)
        ensures
            r == self.blocks(),
    {
        match self {
            Item::Conflict => true,
            Item::Incomplete => true,
            _ => false,
        }
    }
}

/// What an upload takes along never needs somebody to look at it first.
pub proof fn law_uploads_are_not_blocked(item: Item)
    ensures
        item.uploads() ==> !item.blocks(),
        item.commits() ==> item.uploads(),
{
}

// ---------------------------------------------------------------- records

/// What `svn info` says of a working copy or of a place in a repository.
#[derive(Debug)]
pub struct WcInfo {
    pub is_wc: bool,
    pub url: String,
    pub repos_root: String,
    pub revision: String,
    pub node_kind: String,
    pub last_rev: String,
    pub last_author: String,
    pub last_date: String,
}

/// The view of a `WcInfo`.
pub struct WcInfoView {
    pub is_wc: bool,
    pub url: Seq<char>,
    pub repos_root: Seq<char>,
    pub revision: Seq<char>,
    pub node_kind: Seq<char>,
    pub last_rev: Seq<char>,
    pub last_author: Seq<char>,
    pub last_date: Seq<char>,
}

impl View for WcInfo {
    type V = WcInfoView;

    open spec fn view(&self) -> WcInfoView {
        WcInfoView {
            is_wc: self.is_wc,
            url: self.url@,
            repos_root: self.repos_root@,
            revision: self.revision@,
            node_kind: self.node_kind@,
            last_rev: self.last_rev@,
            last_author: self.last_author@,
            last_date: self.last_date@,
        }
    }
}

impl Clone for WcInfo {
    fn clone(&self) -> (r: WcInfo)
        ensures
            r == *self,
    {
        WcInfo {
            is_wc: self.is_wc,
            url: self.url.clone(),
            repos_root: self.repos_root.clone(),
            revision: self.revision.clone(),
            node_kind: self.node_kind.clone(),
            last_rev: self.last_rev.clone(),
            last_author: self.last_author.clone(),
            last_date: self.last_date.clone(),
        }
    }
}

impl Default for WcInfo {
    fn default() -> (r: WcInfo)
        ensures
            !r.is_wc,
            r.url@.len() == 0,
            r.repos_root@.len() == 0,
            r.revision@.len() == 0,
            r.node_kind@.len() == 0,
            r.last_rev@.len() == 0,
            r.last_author@.len() == 0,
            r.last_date@.len() == 0,
    {
        WcInfo {
            is_wc: false,
            url: String::new(),
            repos_root: String::new(),
            revision: String::new(),
            node_kind: String::new(),
            last_rev: String::new(),
            last_author: String::new(),
            last_date: String::new(),
        }
    }
}

/// An item of `svn status`. `checked` tells whether it is picked for the next commit.
#[derive(Debug)]
pub struct StatusEntry {
    pub path: String,
    pub name: String,
    pub item: Item,
    pub props: String,
    pub checked: bool,
}

/// The view of a `StatusEntry`.
pub struct StatusView {
    pub path: Seq<char>,
    pub name: Seq<char>,
    pub item: Item,
    pub props: Seq<char>,
    pub checked: bool,
}

impl View for StatusEntry {
    type V = StatusView;

    open spec fn view(&self) -> StatusView {
        StatusView {
            path: self.path@,
            name: self.name@,
            item: self.item,
            props: self.props@,
            checked: self.checked,
        }
    }
}

impl Clone for StatusEntry {
    fn clone(&self) -> (r: StatusEntry)
        ensures
            r == *self,
    {
        StatusEntry {
            path: self.path.clone(),
            name: self.name.clone(),
            item: self.item,
            props: self.props.clone(),
            checked: self.checked,
        }
    }
}

/// The views of the entries in `v`.
pub open spec fn status_views(v: Seq<StatusEntry>) -> Seq<StatusView> {
    Seq::new(v.len(), |i: int| v[i]@)
}

/// A path that a revision touched.
#[derive(Debug)]
pub struct LogPath {
    pub action: char,
    pub kind: String,
    pub path: String,
}

/// The view of a `LogPath`.
pub struct LogPathView {
    pub action: char,
    pub kind: Seq<char>,
    pub path: Seq<char>,
}

impl View for LogPath {
    type V = LogPathView;

    open spec fn view(&self) -> LogPathView {
        LogPathView { action: self.action, kind: self.kind@, path: self.path@ }
    }
}

impl Clone for LogPath {
    fn clone(&self) -> (r: LogPath)
        ensures
            r == *self,
    {
        LogPath { action: self.action, kind: self.kind.clone(), path: self.path.clone() }
    }
}

/// The views of the paths in `v`.
pub open spec fn path_views(v: Seq<LogPath>) -> Seq<LogPathView> {
    Seq::new(v.len(), |i: int| v[i]@)
}

/// A revision of `svn log`.
#[derive(Debug)]
pub struct LogEntry {
    pub revision: String,
    pub author: String,
    pub date: String,
    pub message: String,
    pub paths: Vec<LogPath>,
}

/// The view of a `LogEntry`.
pub struct LogView {
    pub revision: Seq<char>,
    pub author: Seq<char>,
    pub date: Seq<char>,
    pub message: Seq<char>,
    pub paths: Seq<LogPathView>,
}

impl View for LogEntry {
    type V = LogView;

    open spec fn view(&self) -> LogView {
        LogView {
            revision: self.revision@,
            author: self.author@,
            date: self.date@,
            message: self.message@,
            paths: path_views(self.paths@),
        }
    }
}

impl Clone for LogEntry {
    fn clone(&self) -> (r: LogEntry)
        ensures
            r@ == self@,
    {
        let paths = self.paths.clone();
        assert(path_views(paths@) =~= path_views(self.paths@));
        LogEntry {
            revision: self.revision.clone(),
            author: self.author.clone(),
            date: self.date.clone(),
            message: self.message.clone(),
            paths,
        }
    }
}

/// The views of the entries in `v`.
pub open spec fn log_views(v: Seq<LogEntry>) -> Seq<LogView> {
    Seq::new(v.len(), |i: int| v[i]@)
}

/// How many of the entries need somebody to look at them.
pub open spec fn blocked_among(entries: Seq<StatusView>) -> nat
    decreases entries.len(),
{
    if entries.len() == 0 {
        0
    } else {
        blocked_among(entries.drop_last()) + if entries.last().item.blocks() {
            1nat
        } else {
            0
        }
    }
}

/// How many of the entries need somebody to look at them.
pub fn blocked_count(entries: &[StatusEntry]) -> (r: usize)
    ensures
        r == blocked_among(status_views(entries@)),
        r <= entries@.len(),
{
    let mut n: usize = 0;
    let mut i: usize = 0;
    let ghost sv = status_views(entries@);
    while i < entries.len()
        invariant
            i <= entries.len(),
            n <= i,
            sv == status_views(entries@),
            n == blocked_among(sv.take(i as int)),
        decreases entries.len() - i,
    {
        assert(sv.take(i + 1).drop_last() =~= sv.take(i as int));
        if entries[i].item.blocked() {
            n += 1;
        }
        i += 1;
    }
    assert(sv.take(i as int) =~= sv);
    n
}

/// Those of the first `n` items that an upload takes along, in order.
pub open spec fn uploads_among(entries: Seq<StatusView>, n: int) -> Seq<StatusView>
    decreases n,
{
    if n <= 0 {
        Seq::empty()
    } else if entries[n - 1].item.uploads() {
        uploads_among(entries, n - 1).push(entries[n - 1])
    } else {
        uploads_among(entries, n - 1)
    }
}

/// The items that an upload takes along, in order.
pub fn uploads_of(entries: &Vec<StatusEntry>) -> (r: Vec<StatusEntry>)
    ensures
        status_views(r@) == uploads_among(status_views(entries@), entries@.len() as int),
{
    let ghost sv = status_views(entries@);
    let mut out: Vec<StatusEntry> = Vec::new();
    let mut i: usize = 0;
    assert(status_views(out@) =~= Seq::empty());
    while i < entries.len()
        invariant
            i <= entries.len(),
            sv == status_views(entries@),
            status_views(out@) == uploads_among(sv, i as int),
        decreases entries.len() - i,
    {
        assert(sv[i as int] == entries@[i as int]@);
        if entries[i].item.uploadable() {
            let ghost before = out@;
            let e = entries[i].clone();
            out.push(e);
            assert(status_views(out@) =~= status_views(before).push(e@));
        }
        i += 1;
    }
    out
}

// ---------------------------------------------------------------- laws

/// What can be committed, what an upload takes along, and what somebody has to look at first, state
/// by state.
pub proof fn law_states_of_items(item: Item)
    ensures
        item.commits() <==> item is Added || item is Modified || item is Deleted
            || item is Replaced,
        item.uploads() <==> item is Added || item is Modified || item is Deleted
            || item is Replaced || item is Unversioned || item is Missing,
        item.blocks() <==> item is Conflict || item is Incomplete,
{
}

/// The word that Subversion has for a state.
pub open spec fn svn_word(item: Item) -> Seq<char> {
    match item {
        Item::Added => "added"@,
        Item::Modified => "modified"@,
        Item::Deleted => "deleted"@,
        Item::Replaced => "replaced"@,
        Item::Unversioned => "unversioned"@,
        Item::Missing => "missing"@,
        Item::Conflict => "conflicted"@,
        Item::Ignored => "ignored"@,
        Item::External => "external"@,
        Item::Incomplete => "incomplete"@,
        Item::Normal => "normal"@,
        Item::Other => "none"@,
    }
}

/// Each of Subversion's words reads as the state that it stands for, and every other word as an
/// unknown state.
pub proof fn law_words_read_as_their_states(item: Item, raw: Seq<char>)
    ensures
        item_named(svn_word(item)) == item,
        item_named(raw) is Other || raw == svn_word(item_named(raw)),
{
    reveal_strlit("added");
    reveal_strlit("modified");
    reveal_strlit("deleted");
    reveal_strlit("replaced");
    reveal_strlit("unversioned");
    reveal_strlit("missing");
    reveal_strlit("conflicted");
    reveal_strlit("ignored");
    reveal_strlit("external");
    reveal_strlit("incomplete");
    reveal_strlit("normal");
    reveal_strlit("none");
    assert("modified"@[0] == 'm' && "replaced"@[0] == 'r' && "external"@[0] == 'e');
    assert("deleted"@[0] == 'd' && "missing"@[0] == 'm' && "ignored"@[0] == 'i');
    assert("conflicted"@[0] == 'c' && "incomplete"@[0] == 'i');
    assert("modified"@ != "replaced"@ && "modified"@ != "external"@ && "replaced"@ != "external"@);
    assert("deleted"@ != "missing"@ && "deleted"@ != "ignored"@ && "missing"@ != "ignored"@);
    assert("conflicted"@ != "incomplete"@);
    assert("added"@.len() == 5 && "modified"@.len() == 8 && "deleted"@.len() == 7);
    assert("replaced"@.len() == 8 && "unversioned"@.len() == 11 && "missing"@.len() == 7);
    assert("conflicted"@.len() == 10 && "ignored"@.len() == 7 && "external"@.len() == 8);
    assert("incomplete"@.len() == 10 && "normal"@.len() == 6 && "none"@.len() == 4);
}

/// The changes of a directory are the items that an upload takes along, in their order, and its
/// conflicts are counted one by one.
pub proof fn law_changes_and_conflicts(entries: Seq<StatusView>, n: int)
    requires
        0 <= n <= entries.len(),
    ensures
        uploads_among(entries, n) == entries.take(n).filter(
            |e: StatusView|
                e.item is Added || e.item is Modified || e.item is Deleted || e.item is Replaced
                    || e.item is Unversioned || e.item is Missing,
        ),
        blocked_among(entries.take(n)) == entries.take(n).filter(
            |e: StatusView| e.item is Conflict || e.item is Incomplete,
        ).len(),
    decreases n,
{
    reveal(Seq::filter);
    if n > 0 {
        law_changes_and_conflicts(entries, n - 1);
        assert(entries.take(n).drop_last() =~= entries.take(n - 1));
        assert(entries.take(n).last() == entries[n - 1]);
    }
}

/// A failed run is reported by what it wrote as errors, where that is more than white space, else by
/// what it wrote, else by its code.
pub proof fn law_reports_of_runs(code: int, out: Seq<char>, err: Seq<char>, k: int)
    ensures
        0 <= k < err.len() && !text::is_space(err[k]) ==> run_summary(code, out, err) == text::trim(
            err,
        ),
        (forall|j: int| 0 <= j < err.len() ==> text::is_space(#[trigger] err[j])) && 0 <= k
            < out.len() && !text::is_space(out[k]) ==> run_summary(code, out, err) == text::trim(
            out,
        ),
        (forall|j: int| 0 <= j < err.len() ==> text::is_space(#[trigger] err[j])) && (forall|
            j: int,
        |
            0 <= j < out.len() ==> text::is_space(#[trigger] out[j])) ==> run_summary(
            code,
            out,
            err,
        ) == "命令退出码 "@ + text::signed(code),
{
    let a = text::law_trimming_cuts_white_space(err);
    let b = text::law_trimming_cuts_white_space(out);
    if 0 <= k < err.len() && !text::is_space(err[k]) {
        assert(a.0 <= k < a.1);
    }
    if forall|j: int| 0 <= j < err.len() ==> text::is_space(#[trigger] err[j]) {
        if a.0 < a.1 {
            assert(text::is_space(err[a.0]));
        }
    }
    if 0 <= k < out.len() && !text::is_space(out[k]) {
        assert(b.0 <= k < b.1);
    }
    if forall|j: int| 0 <= j < out.len() ==> text::is_space(#[trigger] out[j]) {
        if b.0 < b.1 {
            assert(text::is_space(out[b.0]));
        }
    }
}

} // verus!
