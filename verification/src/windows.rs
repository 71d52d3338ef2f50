//! The two windows of a single file, its log and one of its changes, and how a window is enlarged
//! and put back.

use vstd::prelude::*;
use crate::diff::PairKind;
use crate::svn::{LogEntry, LogPath, LogPathView};
use crate::text;

verus! {

// ---------------------------------------------------------------- enlarging

/// A rectangle on the screen. Each edge is the bit pattern of its coordinate; nothing here reads
/// it.
#[derive(Clone, Copy, Debug, PartialEq, Eq, Structural)]
pub struct Place {
    pub left: u32,
    pub top: u32,
    pub right: u32,
    pub bottom: u32,
}

/// Where a window goes.
#[derive(Clone, Copy, Debug, PartialEq, Eq, Structural)]
pub enum Placement {
    /// Over all of the work area.
    Fill,
    /// To a given place.
    At(Place),
    /// Wherever it was left.
    Free,
}

/// Whether a window is enlarged, and where it stood before.
#[derive(Clone, Copy, Debug, PartialEq, Eq, Structural)]
pub struct Zoom {
    pub maximized: bool,
    /// Where the window was drawn last while it was not enlarged.
    pub rect: Option<Place>,
    /// Where the window has to be put in the next frame.
    pub restore: Option<Place>,
}

impl Zoom {
    /// The window, enlarged or put back.
    pub open spec fn turned(self, maximized: bool) -> Zoom {
        Zoom {
            maximized,
            restore: if maximized {
                self.restore
            } else {
                self.rect
            },
            ..self
        }
    }

    /// Where the window goes, and what is remembered from then on.
    pub open spec fn put(self, normal: Place) -> (Placement, Zoom) {
        if self.maximized {
            (
                Placement::Fill,
                Zoom {
                    rect: match self.rect {
                        Some(r) => Some(r),
                        None => Some(normal),
                    },
                    ..self
                },
            )
        } else {
            match self.restore {
                Some(r) => (Placement::At(r), Zoom { restore: None, ..self }),
                None => (Placement::Free, self),
            }
        }
    }

    /// What is remembered once the window was drawn.
    pub open spec fn drawn(self, rect: Place) -> Zoom {
        if self.maximized {
            self
        } else {
            Zoom { rect: Some(rect), ..self }
        }
    }

    /// A window that opens enlarged.
    pub fn maximized() -> (r: Zoom)
        ensures
            r == (Zoom { maximized: true, rect: None, restore: None }),
    {
        Zoom { maximized: true, rect: None, restore: None }
    }

    /// What Escape does. It counts only where the window is on top and nothing is being typed. An
    /// enlarged window is put back; returns whether the window is to be closed.
    pub fn escape(&mut self, on_top: bool, typing: bool, pressed: bool) -> (r: bool)
        ensures
            r == (on_top && !typing && pressed && !old(self).maximized),
            *final(self) == (if on_top && !typing && pressed && old(self).maximized {
                old(self).turned(false)
            } else {
                *old(self)
            }),
    {
        if !on_top || typing || !pressed {
            return false;
        }
        if self.maximized {
            self.set(false);
            false
        } else {
            true
        }
    }

    /// Enlarges the window, or puts it back.
    pub fn toggle(&mut self)
        ensures
            *final(self) == old(self).turned(!old(self).maximized),
    {
        let maximized = !self.maximized;
        self.set(maximized);
    }

    fn set(&mut self, maximized: bool)
        ensures
            *final(self) == old(self).turned(maximized),
    {
        if !maximized {
            self.restore = self.rect;
        }
        self.maximized = maximized;
    }

    /// Where the window goes in this frame. `normal` is where it stands when it is not enlarged
    /// and was never drawn.
    pub fn place(&mut self, normal: Place) -> (r: Placement)
        ensures
            (r, *final(self)) == old(self).put(normal),
    {
        if self.maximized {
            if self.rect.is_none() {
                self.rect = Some(normal);
            }
            Placement::Fill
        } else {
            match self.restore {
                Some(r) => {
                    self.restore = None;
                    Placement::At(r)
                },
                None => Placement::Free,
            }
        }
    }

    /// Remembers where the window was drawn, unless it is enlarged.
    pub fn shown(&mut self, rect: Place)
        ensures
            *final(self) == old(self).drawn(rect),
    {
        if !self.maximized {
            self.rect = Some(rect);
        }
    }
}

impl Default for Zoom {
    fn default() -> (r: Zoom)
        ensures
            r == (Zoom { maximized: false, rect: None, restore: None }),
    {
        Zoom { maximized: false, rect: None, restore: None }
    }
}

/// A window that is enlarged and put back goes where it was drawn last, for one frame; after that
/// it is left alone. While it is enlarged, frames change nothing about that.
pub proof fn law_zoom_puts_back(z: Zoom, was: Place, normal: Place, full: Place)
    requires
        !z.maximized,
        z.rect == Some(was),
    ensures
        ({
            let large = z.turned(true).put(normal).1.drawn(full);
            let back = large.turned(false);
            &&& z.turned(true).put(normal).0 == Placement::Fill
            &&& back.put(normal).0 == Placement::At(was)
            &&& back.put(normal).1.put(normal).0 == Placement::Free
        }),
{
}

/// A window that opens enlarged is put back to the place that it would otherwise open at.
pub proof fn law_zoom_opens_enlarged(normal: Place, full: Place)
    ensures
        ({
            let z = Zoom { maximized: true, rect: None, restore: None };
            z.put(normal).1.drawn(full).turned(false).put(normal).0 == Placement::At(normal)
        }),
{
}

// ---------------------------------------------------------------- addresses

/// The address of a path of the log: the root of the repository, and the path behind one slash.
pub open spec fn url_of(root: Seq<char>, path: Seq<char>) -> Seq<char> {
    let base = text::strip_end(root, '/', '/');
    if path.len() > 0 && path[0] == '/' {
        base + path
    } else {
        base + seq!['/'] + path
    }
}

/// The address of a path of the log; none where the root is not known.
pub fn file_url(root: &str, path: &str) -> (r: Option<String>)
    ensures
        match r {
            Some(url) => text::strip_end(root@, '/', '/').len() > 0 && url@ == url_of(root@, path@),
            None => text::strip_end(root@, '/', '/').len() == 0,
        },
{
    let base = text::stripped_end(root, '/', '/');
    if base.as_str().is_empty() {
        return None;
    }
    let mut url = base;
    let chars = text::chars_of(path);
    if chars.len() == 0 || chars[0] != '/' {
        url.push('/');
    }
    url.append(path);
    assert(url@ =~= url_of(root@, path@));
    Some(url)
}

/// The path names an XML file. Those are compared without regard to white space at first.
pub open spec fn is_xml(path: Seq<char>) -> bool {
    path.len() >= 4 && text::same_ascii(text::after(path, path.len() - 4), ".xml"@)
}

/// Whether the path names an XML file.
pub fn names_xml(path: &str) -> (r: bool)
    ensures
        r == is_xml(path@),
{
    let chars = text::chars_of(path);
    if chars.len() < 4 {
        return false;
    }
    let tail = text::string_from(&chars, chars.len() - 4, chars.len());
    text::equal_ignoring_case(tail.as_str(), ".xml")
}

// ---------------------------------------------------------------- the log of a file

/// The log of a single file.
#[derive(Debug)]
pub struct FileLog {
    pub dir: usize,
    pub url: String,
    /// The path as the log of the repository gives it.
    pub name: String,
    pub limit: i64,
    pub entries: Vec<LogEntry>,
    pub error: String,
    pub zoom: Zoom,
}

/// What a revision did to `name`: what the first of its paths of that name says, or a change.
pub open spec fn action_on(paths: Seq<LogPathView>, name: Seq<char>) -> char
    decreases paths.len(),
{
    if paths.len() == 0 {
        'M'
    } else if paths[0].path == name {
        paths[0].action
    } else {
        action_on(paths.drop_first(), name)
    }
}

/// What an action of a file's own log is called.
pub open spec fn log_word(action: char) -> Seq<char> {
    match action {
        'A' => "新增"@,
        'D' => "删除"@,
        'R' => "替换"@,
        _ => "修改"@,
    }
}

/// A message as the log of a file shows it.
pub open spec fn message_shown(message: Seq<char>) -> Seq<char> {
    if text::trim(message).len() == 0 {
        "(无提交说明)"@
    } else {
        text::trim(message)
    }
}

/// What a revision did to `name`.
pub fn action_in(entry: &LogEntry, name: &str) -> (r: char)
    ensures
        r == action_on(entry@.paths, name@),
{
    let ghost all = entry@.paths;
    let mut i: usize = 0;
    assert(all.subrange(0, all.len() as int) =~= all);
    while i < entry.paths.len()
        invariant
            i <= entry.paths.len(),
            all == entry@.paths,
            action_on(all, name@) == action_on(all.subrange(i as int, all.len() as int), name@),
        decreases entry.paths.len() - i,
    {
        let ghost rest = all.subrange(i as int, all.len() as int);
        assert(rest[0] == entry.paths@[i as int]@);
        assert(rest.drop_first() =~= all.subrange(i + 1, all.len() as int));
        if text::same(entry.paths[i].path.as_str(), name) {
            return entry.paths[i].action;
        }
        i += 1;
    }
    'M'
}

/// An action and what it is called in a file's own log.
pub fn log_action(action: char) -> (r: String)
    ensures
        r@ == seq![action] + " "@ + log_word(action),
{
    let mut t = String::new();
    t.push(action);
    t.append(" ");
    t.append(
        match action {
            'A' => "新增",
            'D' => "删除",
            'R' => "替换",
            _ => "修改",
        },
    );
    assert(t@ =~= seq![action] + " "@ + log_word(action));
    t
}

/// A message as the log of a file shows it.
pub fn shown_message(message: &str) -> (r: String)
    ensures
        r@ == message_shown(message@),
{
    let t = text::trimmed(message);
    if t.as_str().is_empty() {
        "(无提交说明)".to_owned()
    } else {
        t
    }
}

impl FileLog {
    /// The window for path `name`, before anything was read.
    pub fn open(dir: usize, url: &str, name: &str, limit: i64) -> (r: FileLog)
        ensures
            r.dir == dir,
            r.url@ == url@,
            r.name@ == name@,
            r.limit == limit,
            r.entries@.len() == 0,
            r.error@.len() == 0,
            r.zoom == (Zoom { maximized: false, rect: None, restore: None }),
    {
        FileLog {
            dir,
            url: url.to_owned(),
            name: name.to_owned(),
            limit,
            entries: Vec::new(),
            error: String::new(),
            zoom: Zoom::default(),
        }
    }

    /// The title of the window.
    pub fn title(&self) -> (r: String)
        ensures
            r@ == "提交记录 · "@ + text::after_last(self.name@, '/'),
    {
        let last = text::behind_last(self.name.as_str(), '/');
        text::join2("提交记录 · ", last.as_str())
    }

    /// Forgets what was read, to read it again.
    pub fn restart(&mut self)
        ensures
            final(self).error@.len() == 0,
            final(self).entries@.len() == 0,
            *final(self) == (FileLog {
                error: final(self).error,
                entries: final(self).entries,
                ..*old(self)
            }),
    {
        self.error = String::new();
        self.entries = Vec::new();
    }

    /// How many commits there are, said once they were read.
    pub fn count_line(&self, loading: bool) -> (r: Option<String>)
        ensures
            match r {
                Some(t) => !loading && self.error@.len() == 0 && t@ == "该文件共 "@
                    + text::decimal(self.entries@.len() as int) + " 次提交"@,
                None => loading || self.error@.len() > 0,
            },
    {
        if loading || !self.error.as_str().is_empty() {
            return None;
        }
        let n = text::count(self.entries.len());
        Some(text::join3("该文件共 ", n.as_str(), " 次提交"))
    }

    /// Whether to say that nothing was found.
    pub fn found_nothing(&self, loading: bool) -> (r: bool)
        ensures
            r == (self.entries@.len() == 0 && !loading && self.error@.len() == 0),
    {
        self.entries.len() == 0 && !loading && self.error.as_str().is_empty()
    }

    /// Takes in what was read.
    pub fn receive(&mut self, entries: Vec<LogEntry>, ok: bool, message: &str)
        ensures
            final(self).entries@ == entries@,
            final(self).error@ == (if ok {
                Seq::empty()
            } else {
                message@
            }),
            *final(self) == (FileLog {
                error: final(self).error,
                entries: final(self).entries,
                ..*old(self)
            }),
    {
        self.entries = entries;
        self.error = if ok {
            String::new()
        } else {
            message.to_owned()
        };
    }
}

// ---------------------------------------------------------------- a change of a file

/// What one commit did to a file, line by line.
#[derive(Debug)]
pub struct FileDiff {
    pub dir: usize,
    pub revision: String,
    pub author: String,
    pub date: String,
    pub message: String,
    /// The path as the log of the repository gives it.
    pub path: String,
    pub action: char,
    pub url: String,
    /// What `svn diff` printed.
    pub diff: String,
    pub error: String,
    /// White space and line ends do not count as changes.
    pub ignore_white: bool,
    pub zoom: Zoom,
}

/// What an action is called.
pub open spec fn action_word(action: char) -> Seq<char> {
    match action {
        'A' => "新增"@,
        'M' => "修改"@,
        'D' => "删除"@,
        'R' => "替换"@,
        _ => "变更"@,
    }
}

/// The colour of an action, as red, green and blue.
pub open spec fn action_rgb(action: char) -> (u8, u8, u8) {
    match action {
        'A' => (60, 190, 110),
        'M' => (90, 160, 240),
        'D' => (235, 90, 90),
        'R' => (185, 140, 240),
        _ => (170, 170, 170),
    }
}

/// The colour of an action, as red, green and blue.
pub fn action_color(action: char) -> (r: (u8, u8, u8))
    ensures
        r == action_rgb(action),
{
    match action {
        'A' => (60, 190, 110),
        'M' => (90, 160, 240),
        'D' => (235, 90, 90),
        'R' => (185, 140, 240),
        _ => (170, 170, 170),
    }
}

/// A line number as the margin shows it; lines that a side does not have show none.
pub fn margin(line: i64) -> (r: String)
    ensures
        r@ == (if line > 0 {
            text::signed(line as int)
        } else {
            Seq::empty()
        }),
{
    if line > 0 {
        text::integer(line)
    } else {
        String::new()
    }
}

/// The colour of the old side of a pair of lines; none where it is plain text.
pub fn old_color(kind: PairKind) -> (r: Option<(u8, u8, u8)>)
    ensures
        r == (if kind is Removed || kind is Changed {
            Some((235u8, 110u8, 110u8))
        } else {
            None
        }),
{
    match kind {
        PairKind::Removed => Some((235, 110, 110)),
        PairKind::Changed => Some((235, 110, 110)),
        _ => None,
    }
}

/// The colour of the new side of a pair of lines; none where it is plain text.
pub fn new_color(kind: PairKind) -> (r: Option<(u8, u8, u8)>)
    ensures
        r == (if kind is Added || kind is Changed {
            Some((90u8, 210u8, 130u8))
        } else {
            None
        }),
{
    match kind {
        PairKind::Added => Some((90, 210, 130)),
        PairKind::Changed => Some((90, 210, 130)),
        _ => None,
    }
}

impl FileDiff {
    /// The window for what `entry` did to `path`, before anything was read. It opens enlarged:
    /// two versions side by side need the room.
    pub fn open(dir: usize, entry: &LogEntry, path: &LogPath, url: &str) -> (r: FileDiff)
        ensures
            r.dir == dir,
            r.revision@ == entry.revision@,
            r.author@ == entry.author@,
            r.date@ == entry.date@,
            r.message@ == entry.message@,
            r.path@ == path.path@,
            r.action == path.action,
            r.url@ == url@,
            r.diff@.len() == 0,
            r.error@.len() == 0,
            r.ignore_white == is_xml(path.path@),
            r.zoom == (Zoom { maximized: true, rect: None, restore: None }),
    {
        FileDiff {
            dir,
            revision: entry.revision.clone(),
            author: entry.author.clone(),
            date: entry.date.clone(),
            message: entry.message.clone(),
            path: path.path.clone(),
            action: path.action,
            url: url.to_owned(),
            diff: String::new(),
            error: String::new(),
            ignore_white: names_xml(path.path.as_str()),
            zoom: Zoom::maximized(),
        }
    }

    /// The title of the window.
    pub fn title(&self) -> (r: String)
        ensures
            r@ == "r"@ + self.revision@ + " 改动明细 · "@ + text::after_last(self.path@, '/'),
    {
        let last = text::behind_last(self.path.as_str(), '/');
        let mut t = text::join3("r", self.revision.as_str(), " 改动明细 · ");
        t.append(last.as_str());
        t
    }

    /// The action and what it is called.
    pub fn action_line(&self) -> (r: String)
        ensures
            r@ == seq![self.action] + " "@ + action_word(self.action),
    {
        let mut t = String::new();
        t.push(self.action);
        t.append(" ");
        t.append(
            match self.action {
                'A' => "新增",
                'M' => "修改",
                'D' => "删除",
                'R' => "替换",
                _ => "变更",
            },
        );
        assert(t@ =~= seq![self.action] + " "@ + action_word(self.action));
        t
    }

    /// The message of the commit, where it has one.
    pub fn message_line(&self) -> (r: Option<String>)
        ensures
            match r {
                Some(t) => text::trim(self.message@).len() > 0 && t@ == "说明："@ + text::trim(
                    self.message@,
                ),
                None => text::trim(self.message@).len() == 0,
            },
    {
        let m = text::trimmed(self.message.as_str());
        if m.as_str().is_empty() {
            None
        } else {
            Some(text::join2("说明：", m.as_str()))
        }
    }

    /// Forgets the differences, to read them with or without white space.
    pub fn ignore(&mut self, ignore: bool)
        ensures
            final(self).diff@.len() == 0,
            *final(self) == (FileDiff {
                diff: final(self).diff,
                ignore_white: ignore,
                ..*old(self)
            }),
    {
        self.ignore_white = ignore;
        self.diff = String::new();
    }

    /// Forgets what was read, to read it again.
    pub fn restart(&mut self)
        ensures
            final(self).error@.len() == 0,
            final(self).diff@.len() == 0,
            *final(self) == (FileDiff {
                error: final(self).error,
                diff: final(self).diff,
                ..*old(self)
            }),
    {
        self.error = String::new();
        self.diff = String::new();
    }

    /// Whether to say that the commit did not change the text.
    pub fn unchanged(&self, loading: bool) -> (r: bool)
        ensures
            r == (text::trim(self.diff@).len() == 0 && !loading && self.error@.len() == 0),
    {
        text::blank(self.diff.as_str()) && !loading && self.error.as_str().is_empty()
    }

    /// Takes in what was read.
    pub fn receive(&mut self, ok: bool, message: &str)
        ensures
            final(self).diff@ == message@,
            final(self).error@ == (if ok {
                Seq::empty()
            } else {
                message@
            }),
            *final(self) == (FileDiff {
                error: final(self).error,
                diff: final(self).diff,
                ..*old(self)
            }),
    {
        self.diff = message.to_owned();
        self.error = if ok {
            String::new()
        } else {
            message.to_owned()
        };
    }
}

// ---------------------------------------------------------------- laws

/// The address of a path is the root and the path with one slash between them, whether or not the
/// root ends or the path begins with one.
pub proof fn law_addresses_have_one_slash(root: Seq<char>, way: Seq<char>)
    requires
        root.len() > 0 ==> root.last() != '/',
        way.len() > 0 ==> way[0] != '/',
    ensures
        url_of(root, way) == root + seq!['/'] + way,
        url_of(root, seq!['/'] + way) == root + seq!['/'] + way,
        url_of(root + seq!['/'], way) == root + seq!['/'] + way,
        url_of(root + seq!['/'], seq!['/'] + way) == root + seq!['/'] + way,
{
    assert(text::strip_end(root, '/', '/') == root);
    assert((root + seq!['/']).subrange(0, root.len() as int) =~= root);
    assert(text::strip_end(root + seq!['/'], '/', '/') == root);
    assert(root + (seq!['/'] + way) =~= root + seq!['/'] + way);
}

/// A path is XML where it ends in a dot and the letters x, m, l, small or capital.
pub proof fn law_xml_goes_by_the_ending(stem: Seq<char>, path: Seq<char>, x: char, m: char, l: char)
    ensures
        (x == 'x' || x == 'X') && (m == 'm' || m == 'M') && (l == 'l' || l == 'L') ==> is_xml(
            stem + seq!['.', x, m, l],
        ),
        is_xml(path) ==> path.len() >= 4 && path[path.len() - 4] == '.' && (path[path.len() - 3]
            == 'x' || path[path.len() - 3] == 'X') && (path[path.len() - 2] == 'm'
            || path[path.len() - 2] == 'M') && (path[path.len() - 1] == 'l' || path[path.len() - 1]
            == 'L'),
{
    reveal_strlit(".xml");
    let end = seq!['.', x, m, l];
    let full = stem + end;
    assert(text::after(full, full.len() - 4) =~= end);
    if is_xml(path) {
        let n = path.len() as int;
        let tail = text::after(path, n - 4);
        assert(tail[0] == path[n - 4] && tail[1] == path[n - 3] && tail[2] == path[n - 2]
            && tail[3] == path[n - 1]);
        assert(text::ascii_lower(tail[0]) == text::ascii_lower(".xml"@[0]));
        assert(text::ascii_lower(tail[1]) == text::ascii_lower(".xml"@[1]));
        assert(text::ascii_lower(tail[2]) == text::ascii_lower(".xml"@[2]));
        assert(text::ascii_lower(tail[3]) == text::ascii_lower(".xml"@[3]));
    }
}

/// What a revision did to a path is what its first line about that very path says; where there is
/// none, the path was modified.
pub proof fn law_actions_are_those_of_the_path(paths: Seq<LogPathView>, name: Seq<char>, i: int)
    ensures
        0 <= i < paths.len() && paths[i].path == name && (forall|j: int|
            0 <= j < i ==> (#[trigger] paths[j]).path != name) ==> action_on(paths, name)
            == paths[i].action,
        (forall|j: int| 0 <= j < paths.len() ==> (#[trigger] paths[j]).path != name) ==> action_on(
            paths,
            name,
        ) == 'M',
    decreases paths.len(),
{
    if paths.len() > 0 && paths[0].path != name {
        let rest = paths.drop_first();
        law_actions_are_those_of_the_path(rest, name, i - 1);
        if forall|j: int| 0 <= j < i ==> (#[trigger] paths[j]).path != name {
            assert forall|j: int| 0 <= j < i - 1 && j < rest.len() implies (
            #[trigger] rest[j]).path != name by {
                assert(rest[j] == paths[j + 1]);
            }
        }
        if forall|j: int| 0 <= j < paths.len() ==> (#[trigger] paths[j]).path != name {
            assert forall|j: int| 0 <= j < rest.len() implies (#[trigger] rest[j]).path != name by {
                assert(rest[j] == paths[j + 1]);
            }
        }
    }
}

} // verus!
