//! The replies of `svn info`, `svn status` and `svn log`, read from their XML.

use vstd::prelude::*;

use crate::date;
use crate::order;
use crate::path;
use crate::svn::{
    log_views, path_views, status_views, Item, LogEntry, LogPath, LogPathView, LogView,
    StatusEntry, StatusView, WcInfo, WcInfoView,
};
use crate::text;
use crate::xml;

verus! {

// ---------------------------------------------------------------- svn info

/// What a reply of `svn info` says, its date as Subversion writes it.
pub open spec fn info_in(nodes: Seq<xml::NodeView>) -> Option<WcInfoView> {
    let entry = xml::first_tagged(nodes, "entry"@, 0, nodes.len() as int);
    let commit = xml::first_tagged(nodes, "commit"@, 0, nodes.len() as int);
    if entry < 0 {
        None
    } else {
        Some(
            WcInfoView {
                is_wc: true,
                url: xml::document_text(nodes, "url"@),
                repos_root: xml::document_text(nodes, "root"@),
                revision: xml::attr_or(nodes[entry], "revision"@, Seq::empty()),
                node_kind: xml::attr_or(nodes[entry], "kind"@, Seq::empty()),
                last_rev: if commit < 0 {
                    Seq::empty()
                } else {
                    xml::attr_or(nodes[commit], "revision"@, Seq::empty())
                },
                last_author: xml::document_text(nodes, "author"@),
                last_date: xml::document_text(nodes, "date"@),
            },
        )
    }
}

/// `shown` is `raw` with its date on the local clock.
pub open spec fn info_shown(raw: Option<WcInfoView>, shown: Option<WcInfoView>) -> bool {
    match (raw, shown) {
        (Some(a), Some(b)) => date::shown_locally(a.last_date, b.last_date) && b == (WcInfoView {
            last_date: b.last_date,
            ..a
        }),
        (None, None) => true,
        _ => false,
    }
}

/// The view of an optional `WcInfo`.
pub open spec fn info_view(info: Option<WcInfo>) -> Option<WcInfoView> {
    match info {
        Some(i) => Some(i@),
        None => None,
    }
}

fn attribute_or_empty(n: &xml::Node, name: &str) -> (r: String)
    ensures
        r@ == xml::attr_or(n@, name@, Seq::empty()),
{
    match xml::attribute(n, name) {
        Some(v) => v,
        None => String::new(),
    }
}

/// What the nodes of a reply of `svn info` say, its date as Subversion writes it.
pub fn info_of(nodes: &Vec<xml::Node>) -> (r: Option<WcInfo>)
    ensures
        info_view(r) == info_in(xml::node_views(nodes@)),
{
    let entry = match xml::find_tagged(nodes, "entry", 0, nodes.len()) {
        Some(i) => i,
        None => {
            return None;
        },
    };
    let last_rev = match xml::find_tagged(nodes, "commit", 0, nodes.len()) {
        Some(i) => attribute_or_empty(&nodes[i], "revision"),
        None => String::new(),
    };
    let r = WcInfo {
        is_wc: true,
        url: xml::text_in_document(nodes, "url"),
        repos_root: xml::text_in_document(nodes, "root"),
        revision: attribute_or_empty(&nodes[entry], "revision"),
        node_kind: attribute_or_empty(&nodes[entry], "kind"),
        last_rev,
        last_author: xml::text_in_document(nodes, "author"),
        last_date: xml::text_in_document(nodes, "date"),
    };
    Some(r)
}

/// What a reply of `svn info` says; nothing where it is no XML or holds no entry.
pub fn parse_info(xml: &str) -> (r: Option<WcInfo>)
    ensures
        match xml::document(xml@) {
            Some(nodes) => info_shown(info_in(nodes), info_view(r)),
            None => r is None,
        },
{
    let nodes = match xml::parse(xml) {
        Some(n) => n,
        None => {
            return None;
        },
    };
    match info_of(&nodes) {
        Some(mut info) => {
            let shown = date::format_svn_date(info.last_date.as_str());
            info.last_date = shown;
            Some(info)
        },
        None => None,
    }
}

// ---------------------------------------------------------------- svn status -u

/// How many entries from node `i` on have changed on the server.
pub open spec fn behind_from(nodes: Seq<xml::NodeView>, i: int) -> nat
    decreases nodes.len() - i,
{
    if i >= nodes.len() {
        0
    } else {
        behind_from(nodes, i + 1) + if nodes[i].tag == "entry"@ && xml::child(
            nodes,
            "repos-status"@,
            i,
        ) >= 0 {
            1nat
        } else {
            0
        }
    }
}

/// How many entries have changed on the server.
pub fn behind_in(nodes: &Vec<xml::Node>) -> (r: usize)
    ensures
        r == behind_from(xml::node_views(nodes@), 0),
{
    let ghost nv = xml::node_views(nodes@);
    let mut n: usize = 0;
    let mut i: usize = nodes.len();
    while i > 0
        invariant
            nv == xml::node_views(nodes@),
            i <= nodes.len(),
            n <= nodes.len() - i,
            n == behind_from(nv, i as int),
        decreases i,
    {
        i -= 1;
        if text::same(nodes[i].tag.as_str(), "entry") && xml::find_child(
            nodes,
            "repos-status",
            i,
        ).is_some() {
            n += 1;
        }
    }
    n
}

/// How many entries of a reply of `svn status -u` have changed on the server and not been updated
/// here: those with a `repos-status`. The revision of the working copy's root is no measure, for a
/// commit only moves the paths that it commits.
pub fn parse_out_of_date(xml: &str) -> (r: usize)
    ensures
        match xml::document(xml@) {
            Some(nodes) => r == behind_from(nodes, 0),
            None => r == 0,
        },
{
    match xml::parse(xml) {
        Some(nodes) => behind_in(&nodes),
        None => 0,
    }
}

// ---------------------------------------------------------------- svn status

/// The path that an entry's `path` attribute stands for in the working copy `base`.
pub open spec fn entry_path(base: Seq<char>, raw: Seq<char>) -> Seq<char> {
    if raw.len() == 0 || raw == "."@ {
        base
    } else if path::absolute(raw) {
        raw
    } else {
        path::joined(base, raw)
    }
}

/// The name that an entry goes by.
pub open spec fn entry_name(full: Seq<char>) -> Seq<char> {
    match path::file_name(full) {
        Some(name) => name,
        None => full,
    }
}

/// The entry at node `i`, whose `path` attribute is `raw`.
pub open spec fn status_at(
    nodes: Seq<xml::NodeView>,
    base: Seq<char>,
    i: int,
    raw: Seq<char>,
) -> StatusView {
    let s = xml::child(nodes, "wc-status"@, i);
    let item = crate::svn::item_named(
        if s < 0 {
            "none"@
        } else {
            xml::attr_or(nodes[s], "item"@, "none"@)
        },
    );
    StatusView {
        path: entry_path(base, raw),
        name: entry_name(entry_path(base, raw)),
        item,
        props: if s < 0 {
            "none"@
        } else {
            xml::attr_or(nodes[s], "props"@, "none"@)
        },
        checked: item.uploads(),
    }
}

/// The entries from node `i` on, in the order in which they stand.
pub open spec fn status_from(nodes: Seq<xml::NodeView>, base: Seq<char>, i: int) -> Seq<StatusView>
    decreases nodes.len() - i,
{
    if i >= nodes.len() {
        Seq::empty()
    } else {
        let rest = status_from(nodes, base, i + 1);
        if nodes[i].tag == "entry"@ {
            match xml::attr(nodes[i], "path"@) {
                Some(raw) => seq![status_at(nodes, base, i, raw)] + rest,
                None => rest,
            }
        } else {
            rest
        }
    }
}

/// What entries are ordered by: the word for their state, then their path.
pub open spec fn status_keys(list: Seq<StatusView>) -> Seq<order::KeyView> {
    Seq::new(
        list.len(),
        |i: int| order::KeyView { rank: 0, first: list[i].item.word(), second: list[i].path },
    )
}

/// `list` in the order of its keys.
pub open spec fn status_ordered(list: Seq<StatusView>) -> Seq<StatusView> {
    let perm = choose|perm: Seq<int>| order::stable_order(status_keys(list), perm);
    Seq::new(list.len(), |i: int| list[perm[i]])
}

fn path_of_entry(base: &str, raw: &str) -> (r: String)
    ensures
        r@ == entry_path(base@, raw@),
{
    if raw.is_empty() || text::same(raw, ".") {
        base.to_owned()
    } else if path::is_absolute(raw) {
        raw.to_owned()
    } else {
        path::join(base, raw)
    }
}

fn status_entry(nodes: &Vec<xml::Node>, base: &str, i: usize, raw: &str) -> (r: StatusEntry)
    requires
        i < nodes.len(),
    ensures
        r@ == status_at(xml::node_views(nodes@), base@, i as int, raw@),
{
    let (item, props) = match xml::find_child(nodes, "wc-status", i) {
        Some(s) => (
            xml::attribute_or(&nodes[s], "item", "none"),
            xml::attribute_or(&nodes[s], "props", "none"),
        ),
        None => ("none".to_owned(), "none".to_owned()),
    };
    let item = Item::from_svn(item.as_str());
    let path = path_of_entry(base, raw);
    let name = match path::name_of(path.as_str()) {
        Some(n) => n,
        None => path.clone(),
    };
    StatusEntry { path, name, item, props, checked: item.uploadable() }
}

fn ordered(list: Vec<StatusEntry>) -> (r: Vec<StatusEntry>)
    ensures
        status_views(r@) == status_ordered(status_views(list@)),
{
    let ghost lv = status_views(list@);
    let mut keys: Vec<order::Key> = Vec::new();
    let mut i: usize = 0;
    while i < list.len()
        invariant
            i <= list.len(),
            lv == status_views(list@),
            order::key_views(keys@) == status_keys(lv).take(i as int),
        decreases list.len() - i,
    {
        let ghost before = keys@;
        let key = order::Key {
            rank: 0,
            first: list[i].item.text().to_owned(),
            second: list[i].path.clone(),
        };
        assert(key@ == status_keys(lv)[i as int]);
        keys.push(key);
        assert(order::key_views(keys@) =~= order::key_views(before).push(key@));
        assert(status_keys(lv).take(i + 1) =~= status_keys(lv).take(i as int).push(key@));
        i += 1;
    }
    assert(status_keys(lv).take(i as int) =~= status_keys(lv));
    let perm = order::order(&keys);
    proof {
        let chosen = choose|p: Seq<int>| order::stable_order(status_keys(lv), p);
        order::lemma_stable_order_unique(status_keys(lv), chosen, order::places(perm@));
    }
    let mut out: Vec<StatusEntry> = Vec::new();
    let mut k: usize = 0;
    while k < perm.len()
        invariant
            k <= perm.len(),
            perm@.len() == list@.len(),
            lv == status_views(list@),
            forall|j: int| 0 <= j < perm@.len() ==> (#[trigger] perm@[j]) < list@.len(),
            out@.len() == k,
            forall|j: int| 0 <= j < k ==> (#[trigger] out@[j])@ == lv[perm@[j] as int],
        decreases perm.len() - k,
    {
        let e = list[perm[k]].clone();
        out.push(e);
        k += 1;
    }
    assert(status_views(out@) =~= status_ordered(lv));
    out
}

/// The entries that the nodes of a reply of `svn status` hold, in the order of their states and
/// paths.
pub fn status_of(nodes: &Vec<xml::Node>, base: &str) -> (r: Vec<StatusEntry>)
    ensures
        status_views(r@) == status_ordered(status_from(xml::node_views(nodes@), base@, 0)),
{
    let ghost nv = xml::node_views(nodes@);
    let mut list: Vec<StatusEntry> = Vec::new();
    let mut i: usize = 0;
    assert(status_from(nv, base@, 0) =~= status_views(list@) + status_from(nv, base@, 0));
    while i < nodes.len()
        invariant
            nv == xml::node_views(nodes@),
            i <= nodes.len(),
            status_from(nv, base@, 0) == status_views(list@) + status_from(nv, base@, i as int),
        decreases nodes.len() - i,
    {
        let ghost before = list@;
        if text::same(nodes[i].tag.as_str(), "entry") {
            match xml::attribute(&nodes[i], "path") {
                Some(raw) => {
                    let e = status_entry(nodes, base, i, raw.as_str());
                    list.push(e);
                    assert(status_views(list@) =~= status_views(before).push(e@));
                },
                None => {},
            }
        }
        assert(status_views(before) + status_from(nv, base@, i as int) =~= status_views(list@)
            + status_from(nv, base@, i + 1));
        i += 1;
    }
    assert(status_views(list@) + status_from(nv, base@, i as int) =~= status_views(list@));
    ordered(list)
}

/// The entries in a reply of `svn status` on the working copy `base`. Whatever an upload can take
/// along is checked; the rest is not.
pub fn parse_status(xml: &str, base: &str) -> (r: Vec<StatusEntry>)
    ensures
        match xml::document(xml@) {
            Some(nodes) => status_views(r@) == status_ordered(status_from(nodes, base@, 0)),
            None => r@.len() == 0,
        },
{
    match xml::parse(xml) {
        Some(nodes) => status_of(&nodes, base),
        None => Vec::new(),
    }
}

/// Every entry is checked exactly when an upload would take it along, and goes by the last name of
/// its path.
pub proof fn law_status_checks_what_uploads(nodes: Seq<xml::NodeView>, base: Seq<char>, k: int)
    requires
        0 <= k < status_ordered(status_from(nodes, base, 0)).len(),
    ensures
        status_ordered(status_from(nodes, base, 0))[k].checked == status_ordered(
            status_from(nodes, base, 0),
        )[k].item.uploads(),
        status_ordered(status_from(nodes, base, 0))[k].name == entry_name(
            status_ordered(status_from(nodes, base, 0))[k].path,
        ),
{
    let list = status_from(nodes, base, 0);
    lemma_status_shape(nodes, base, 0);
    order::lemma_order_exists(status_keys(list));
    let perm = choose|perm: Seq<int>| order::stable_order(status_keys(list), perm);
    assert(perm[k] < status_keys(list).len());
}

proof fn lemma_status_shape(nodes: Seq<xml::NodeView>, base: Seq<char>, i: int)
    ensures
        0 <= i <= nodes.len() ==> status_from(nodes, base, i).len() <= nodes.len() - i,
        forall|k: int|
            0 <= k < status_from(nodes, base, i).len() ==> {
                let e = #[trigger] status_from(nodes, base, i)[k];
                e.checked == e.item.uploads() && e.name == entry_name(e.path)
            },
    decreases nodes.len() - i,
{
    if i < nodes.len() {
        lemma_status_shape(nodes, base, i + 1);
        let rest = status_from(nodes, base, i + 1);
        assert forall|k: int| 0 <= k < status_from(nodes, base, i).len() implies {
            let e = #[trigger] status_from(nodes, base, i)[k];
            e.checked == e.item.uploads() && e.name == entry_name(e.path)
        } by {
            let all = status_from(nodes, base, i);
            if all.len() == rest.len() + 1 {
                if k > 0 {
                    assert(all[k] == rest[k - 1]);
                }
            } else {
                assert(all[k] == rest[k]);
            }
        }
    }
}

// ---------------------------------------------------------------- svn log

/// The path at node `j`.
pub open spec fn path_at(n: xml::NodeView) -> LogPathView {
    let action = xml::attr_or(n, "action"@, Seq::empty());
    LogPathView {
        action: if action.len() > 0 {
            action[0]
        } else {
            ' '
        },
        kind: xml::attr_or(n, "kind"@, Seq::empty()),
        path: xml::text_or_empty(n),
    }
}

/// The paths among the nodes `from..to`.
pub open spec fn paths_from(nodes: Seq<xml::NodeView>, from: int, to: int) -> Seq<LogPathView>
    decreases to - from,
{
    if from >= to {
        Seq::empty()
    } else if nodes[from].tag == "path"@ {
        seq![path_at(nodes[from])] + paths_from(nodes, from + 1, to)
    } else {
        paths_from(nodes, from + 1, to)
    }
}

/// The revision at node `i`, its date as Subversion writes it.
pub open spec fn log_at(nodes: Seq<xml::NodeView>, i: int) -> LogView {
    LogView {
        revision: xml::attr_or(nodes[i], "revision"@, Seq::empty()),
        author: xml::child_text(nodes, "author"@, i),
        date: xml::child_text(nodes, "date"@, i),
        message: text::trim(xml::child_text(nodes, "msg"@, i)),
        paths: paths_from(nodes, i, xml::end_of(nodes, i)),
    }
}

/// The revisions from node `i` on, their dates as Subversion writes them.
pub open spec fn logs_from(nodes: Seq<xml::NodeView>, i: int) -> Seq<LogView>
    decreases nodes.len() - i,
{
    if i >= nodes.len() {
        Seq::empty()
    } else if nodes[i].tag == "logentry"@ {
        seq![log_at(nodes, i)] + logs_from(nodes, i + 1)
    } else {
        logs_from(nodes, i + 1)
    }
}

/// `shown` is `raw` with its date on the local clock.
pub open spec fn log_shown(raw: LogView, shown: LogView) -> bool {
    date::shown_locally(raw.date, shown.date) && shown == (LogView { date: shown.date, ..raw })
}

/// `shown` is `raw` with every date on the local clock.
pub open spec fn logs_shown(raw: Seq<LogView>, shown: Seq<LogView>) -> bool {
    &&& raw.len() == shown.len()
    &&& forall|i: int| 0 <= i < raw.len() ==> log_shown(#[trigger] raw[i], shown[i])
}

fn log_path(n: &xml::Node) -> (r: LogPath)
    ensures
        r@ == path_at(n@),
{
    let action = attribute_or_empty(n, "action");
    let letters = text::chars_of(action.as_str());
    LogPath {
        action: if letters.len() > 0 {
            letters[0]
        } else {
            ' '
        },
        kind: attribute_or_empty(n, "kind"),
        path: xml::text_of(n),
    }
}

fn log_paths(nodes: &Vec<xml::Node>, from: usize, to: usize) -> (r: Vec<LogPath>)
    requires
        from <= to <= nodes.len(),
    ensures
        path_views(r@) == paths_from(xml::node_views(nodes@), from as int, to as int),
{
    let ghost nv = xml::node_views(nodes@);
    let mut out: Vec<LogPath> = Vec::new();
    let mut k: usize = from;
    assert(paths_from(nv, from as int, to as int) =~= path_views(out@) + paths_from(
        nv,
        from as int,
        to as int,
    ));
    while k < to
        invariant
            nv == xml::node_views(nodes@),
            from <= k <= to <= nodes.len(),
            paths_from(nv, from as int, to as int) == path_views(out@) + paths_from(
                nv,
                k as int,
                to as int,
            ),
        decreases to - k,
    {
        let ghost before = out@;
        if text::same(nodes[k].tag.as_str(), "path") {
            let p = log_path(&nodes[k]);
            out.push(p);
            assert(path_views(out@) =~= path_views(before).push(p@));
        }
        assert(path_views(before) + paths_from(nv, k as int, to as int) =~= path_views(out@)
            + paths_from(nv, k + 1, to as int));
        k += 1;
    }
    assert(path_views(out@) + paths_from(nv, k as int, to as int) =~= path_views(out@));
    out
}

/// The revisions that the nodes of a reply of `svn log` hold, their dates as Subversion writes
/// them.
pub fn logs_of(nodes: &Vec<xml::Node>) -> (r: Vec<LogEntry>)
    ensures
        log_views(r@) == logs_from(xml::node_views(nodes@), 0),
{
    let ghost nv = xml::node_views(nodes@);
    let mut out: Vec<LogEntry> = Vec::new();
    let mut i: usize = 0;
    assert(logs_from(nv, 0) =~= log_views(out@) + logs_from(nv, 0));
    while i < nodes.len()
        invariant
            nv == xml::node_views(nodes@),
            i <= nodes.len(),
            logs_from(nv, 0) == log_views(out@) + logs_from(nv, i as int),
        decreases nodes.len() - i,
    {
        let ghost before = out@;
        if text::same(nodes[i].tag.as_str(), "logentry") {
            let end = xml::end_after(nodes, i);
            let message = xml::text_of_child(nodes, "msg", i);
            let e = LogEntry {
                revision: attribute_or_empty(&nodes[i], "revision"),
                author: xml::text_of_child(nodes, "author", i),
                date: xml::text_of_child(nodes, "date", i),
                message: text::trimmed(message.as_str()),
                paths: log_paths(nodes, i, end),
            };
            assert(e@ == log_at(nv, i as int));
            out.push(e);
            assert(log_views(out@) =~= log_views(before).push(e@));
        }
        assert(log_views(before) + logs_from(nv, i as int) =~= log_views(out@) + logs_from(
            nv,
            i + 1,
        ));
        i += 1;
    }
    assert(log_views(out@) + logs_from(nv, i as int) =~= log_views(out@));
    out
}

/// The revisions in a reply of `svn log -v`, in the order in which the server gives them.
pub fn parse_log(xml: &str) -> (r: Vec<LogEntry>)
    ensures
        match xml::document(xml@) {
            Some(nodes) => logs_shown(logs_from(nodes, 0), log_views(r@)),
            None => r@.len() == 0,
        },
{
    let nodes = match xml::parse(xml) {
        Some(n) => n,
        None => {
            return Vec::new();
        },
    };
    let raw = logs_of(&nodes);
    let ghost rv = log_views(raw@);
    let mut out: Vec<LogEntry> = Vec::new();
    let mut i: usize = 0;
    while i < raw.len()
        invariant
            rv == log_views(raw@),
            i <= raw.len(),
            out@.len() == i,
            forall|j: int| 0 <= j < i ==> log_shown(rv[j], (#[trigger] out@[j])@),
        decreases raw.len() - i,
    {
        let mut e = raw[i].clone();
        e.date = date::format_svn_date(raw[i].date.as_str());
        assert(log_shown(rv[i as int], e@));
        out.push(e);
        i += 1;
    }
    assert forall|j: int| 0 <= j < rv.len() implies log_shown(#[trigger] rv[j], log_views(out@)[j]) by {
        assert(log_shown(rv[j], out@[j]@));
    }
    out
}

// ---------------------------------------------------------------- laws

/// Node `i` is an entry with a child that tells of a change on the server.
pub open spec fn is_behind(nodes: Seq<xml::NodeView>, i: int) -> bool {
    &&& 0 <= i < nodes.len()
    &&& nodes[i].tag == "entry"@
    &&& exists|j: int| #[trigger] xml::is_child(nodes, i, j, "repos-status"@)
}

proof fn lemma_behind(nodes: Seq<xml::NodeView>, n: int)
    requires
        0 <= n <= nodes.len(),
    ensures
        Set::new(|i: int| n <= i && is_behind(nodes, i)).finite(),
        Set::new(|i: int| n <= i && is_behind(nodes, i)).len() == behind_from(nodes, n),
    decreases nodes.len() - n,
{
    let all = Set::new(|i: int| n <= i && is_behind(nodes, i));
    if n == nodes.len() {
        assert(all =~= Set::empty());
    } else {
        lemma_behind(nodes, n + 1);
        let rest = Set::new(|i: int| n + 1 <= i && is_behind(nodes, i));
        let c = xml::child(nodes, "repos-status"@, n);
        xml::law_first_child_is_found(nodes, "repos-status"@, n);
        if c >= 0 {
            assert(xml::is_child(nodes, n, c, "repos-status"@));
        }
        assert(is_behind(nodes, n) <==> nodes[n].tag == "entry"@ && c >= 0);
        if is_behind(nodes, n) {
            assert(all =~= rest.insert(n));
        } else {
            assert(all =~= rest);
        }
    }
}

/// The number of entries that have changed on the server is the number of those with a
/// `repos-status` child, whatever attributes either has.
pub proof fn law_every_change_on_the_server_counts(nodes: Seq<xml::NodeView>)
    ensures
        Set::new(|i: int| is_behind(nodes, i)).finite(),
        behind_from(nodes, 0) == Set::new(|i: int| is_behind(nodes, i)).len(),
{
    lemma_behind(nodes, 0);
    assert(Set::new(|i: int| is_behind(nodes, i)) =~= Set::new(
        |i: int| 0 <= i && is_behind(nodes, i),
    ));
}

/// Node `i` is an entry with a path.
pub open spec fn is_listed(nodes: Seq<xml::NodeView>, i: int) -> bool {
    0 <= i < nodes.len() && nodes[i].tag == "entry"@ && xml::attr(nodes[i], "path"@) is Some
}

/// `e` tells of the entry at node `i` what its `path` and its first `wc-status` say.
pub open spec fn tells_status(
    nodes: Seq<xml::NodeView>,
    base: Seq<char>,
    i: int,
    e: StatusView,
) -> bool {
    let raw = xml::attr(nodes[i], "path"@)->Some_0;
    &&& e.path == if raw.len() == 0 || raw == seq!['.'] {
        base
    } else if path::absolute(raw) {
        raw
    } else {
        path::joined(base, raw)
    }
    &&& path::file_name(e.path) matches Some(name) ==> e.name == name
    &&& path::file_name(e.path) is None ==> e.name == e.path
    &&& forall|c: int| #[trigger]
        xml::is_first_child(nodes, i, c, "wc-status"@) ==> {
            &&& e.item == crate::svn::item_named(xml::attr_or(nodes[c], "item"@, "none"@))
            &&& e.props == xml::attr_or(nodes[c], "props"@, "none"@)
        }
    &&& (forall|c: int| !#[trigger] xml::is_child(nodes, i, c, "wc-status"@)) ==> e.item
        == crate::svn::item_named("none"@) && e.props == "none"@
    &&& e.checked <==> e.item is Added || e.item is Modified || e.item is Deleted
        || e.item is Replaced || e.item is Unversioned || e.item is Missing
}

proof fn lemma_status_at(nodes: Seq<xml::NodeView>, base: Seq<char>, i: int)
    requires
        is_listed(nodes, i),
    ensures
        tells_status(
            nodes,
            base,
            i,
            status_at(nodes, base, i, xml::attr(nodes[i], "path"@)->Some_0),
        ),
{
    reveal_strlit(".");
    assert("."@ =~= seq!['.']);
    xml::law_first_child_is_found(nodes, "wc-status"@, i);
    let s = xml::child(nodes, "wc-status"@, i);
    if s >= 0 {
        assert(xml::is_child(nodes, i, s, "wc-status"@));
    }
}

proof fn lemma_status_places(nodes: Seq<xml::NodeView>, base: Seq<char>, i: int) -> (at: Seq<int>)
    requires
        0 <= i <= nodes.len(),
    ensures
        at.len() == status_from(nodes, base, i).len(),
        forall|k: int|
            0 <= k < at.len() ==> i <= #[trigger] at[k] && is_listed(nodes, at[k]) && tells_status(
                nodes,
                base,
                at[k],
                status_from(nodes, base, i)[k],
            ),
        forall|k: int, m: int| 0 <= k < m < at.len() ==> #[trigger] at[k] < #[trigger] at[m],
        forall|j: int| i <= j && #[trigger] is_listed(nodes, j) ==> at.contains(j),
    decreases nodes.len() - i,
{
    if i == nodes.len() {
        Seq::empty()
    } else {
        let rest = lemma_status_places(nodes, base, i + 1);
        let more = status_from(nodes, base, i + 1);
        let all = status_from(nodes, base, i);
        if is_listed(nodes, i) {
            lemma_status_at(nodes, base, i);
            let at = seq![i] + rest;
            assert forall|k: int| 0 <= k < at.len() implies i <= #[trigger] at[k] && is_listed(
                nodes,
                at[k],
            ) && tells_status(nodes, base, at[k], all[k]) by {
                if k > 0 {
                    assert(at[k] == rest[k - 1]);
                    assert(all[k] == more[k - 1]);
                }
            }
            assert forall|j: int| i <= j && #[trigger] is_listed(nodes, j) implies at.contains(
                j,
            ) by {
                if j == i {
                    assert(at[0] == i);
                } else {
                    let k = choose|k: int| 0 <= k < rest.len() && rest[k] == j;
                    assert(at[k + 1] == j);
                }
            }
            at
        } else {
            rest
        }
    }
}

/// A reply of `svn status` is read entry by entry: every entry with a path is told of once, by what
/// its own `path` and `wc-status` say, and nothing else is. The entries stand in the order of the
/// words for their states and of their paths; where both are the same, in that of the reply.
pub proof fn law_every_entry_is_listed(nodes: Seq<xml::NodeView>, base: Seq<char>) -> (at: Seq<int>)
    ensures
        ({
            let list = status_ordered(status_from(nodes, base, 0));
            &&& at.len() == list.len()
            &&& at.no_duplicates()
            &&& forall|j: int| #[trigger] at.contains(j) <==> is_listed(nodes, j)
            &&& forall|k: int|
                0 <= k < list.len() ==> tells_status(nodes, base, at[k], #[trigger] list[k])
            &&& forall|k: int, m: int|
                #![trigger list[k], list[m]]
                0 <= k < m < list.len() ==> {
                    ||| text::before(list[k].item.word(), list[m].item.word())
                    ||| list[k].item.word() == list[m].item.word() && text::before(
                        list[k].path,
                        list[m].path,
                    )
                    ||| list[k].item.word() == list[m].item.word() && list[k].path == list[m].path
                        && at[k] < at[m]
                }
        }),
{
    let raw = status_from(nodes, base, 0);
    let from = lemma_status_places(nodes, base, 0);
    let keys = status_keys(raw);
    order::lemma_order_exists(keys);
    let perm = choose|perm: Seq<int>| order::stable_order(keys, perm);
    let list = status_ordered(raw);
    let at = Seq::new(list.len(), |k: int| from[perm[k]]);
    assert forall|k: int| 0 <= k < list.len() implies tells_status(
        nodes,
        base,
        at[k],
        #[trigger] list[k],
    ) by {
        assert(0 <= perm[k] < keys.len());
        assert(is_listed(nodes, from[perm[k]]));
    }
    assert forall|k: int, m: int| 0 <= k < m < list.len() implies {
        ||| text::before(#[trigger] list[k].item.word(), #[trigger] list[m].item.word())
        ||| list[k].item.word() == list[m].item.word() && text::before(list[k].path, list[m].path)
        ||| list[k].item.word() == list[m].item.word() && list[k].path == list[m].path && at[k]
            < at[m]
    } by {
        assert(order::in_order(keys, perm[k], perm[m]));
        assert(0 <= perm[k] < keys.len() && 0 <= perm[m] < keys.len());
        order::lemma_places_differ(keys, perm, k, m);
        if keys[perm[k]] == keys[perm[m]] {
            assert(keys[perm[k]].first == keys[perm[m]].first);
            assert(from[perm[k]] < from[perm[m]]);
        }
    }
    assert forall|k: int, m: int| 0 <= k < m < at.len() implies at[k] != at[m] by {
        assert(order::in_order(keys, perm[k], perm[m]));
        order::lemma_places_differ(keys, perm, k, m);
        assert(0 <= perm[k] < keys.len() && 0 <= perm[m] < keys.len());
        if perm[k] < perm[m] {
            assert(from[perm[k]] < from[perm[m]]);
        } else {
            assert(from[perm[m]] < from[perm[k]]);
        }
    }
    assert forall|j: int| #[trigger] at.contains(j) <==> is_listed(nodes, j) by {
        if at.contains(j) {
            let k = choose|k: int| 0 <= k < at.len() && at[k] == j;
            assert(0 <= perm[k] < keys.len());
            assert(is_listed(nodes, from[perm[k]]));
        }
        if is_listed(nodes, j) {
            let p = choose|p: int| 0 <= p < from.len() && from[p] == j;
            order::lemma_lists_all(keys, perm);
            assert(perm.contains(p));
            let k = choose|k: int| 0 <= k < perm.len() && perm[k] == p;
            assert(at[k] == j);
        }
    }
    at
}

/// `e` tells of the revision at node `i` what its attribute and its first children of each name
/// say; a date is still as Subversion writes it.
pub open spec fn tells_revision(nodes: Seq<xml::NodeView>, i: int, e: LogView) -> bool {
    &&& e.revision == xml::attr_or(nodes[i], "revision"@, Seq::empty())
    &&& forall|c: int| #[trigger]
        xml::is_first_child(nodes, i, c, "author"@) ==> e.author == xml::text_or_empty(nodes[c])
    &&& (forall|c: int| !#[trigger] xml::is_child(nodes, i, c, "author"@)) ==> e.author.len() == 0
    &&& forall|c: int| #[trigger]
        xml::is_first_child(nodes, i, c, "date"@) ==> e.date == xml::text_or_empty(nodes[c])
    &&& (forall|c: int| !#[trigger] xml::is_child(nodes, i, c, "date"@)) ==> e.date.len() == 0
    &&& forall|c: int| #[trigger]
        xml::is_first_child(nodes, i, c, "msg"@) ==> e.message == text::trim(
            xml::text_or_empty(nodes[c]),
        )
    &&& (forall|c: int| !#[trigger] xml::is_child(nodes, i, c, "msg"@)) ==> e.message.len() == 0
}

/// `p` tells of the path at a node what its attributes and its text say.
pub open spec fn tells_path(n: xml::NodeView, p: LogPathView) -> bool {
    let action = xml::attr_or(n, "action"@, Seq::empty());
    &&& action.len() > 0 ==> p.action == action[0]
    &&& action.len() == 0 ==> p.action == ' '
    &&& p.kind == xml::attr_or(n, "kind"@, Seq::empty())
    &&& p.path == xml::text_or_empty(n)
}

proof fn lemma_path_places(nodes: Seq<xml::NodeView>, from: int, to: int) -> (at: Seq<int>)
    requires
        0 <= from <= to <= nodes.len(),
    ensures
        at.len() == paths_from(nodes, from, to).len(),
        forall|k: int|
            0 <= k < at.len() ==> from <= #[trigger] at[k] < to && nodes[at[k]].tag == "path"@
                && tells_path(nodes[at[k]], paths_from(nodes, from, to)[k]),
        forall|k: int, m: int| 0 <= k < m < at.len() ==> #[trigger] at[k] < #[trigger] at[m],
        forall|j: int|
            from <= j < to && (#[trigger] nodes[j]).tag == "path"@ ==> at.contains(j),
    decreases to - from,
{
    if from == to {
        Seq::empty()
    } else {
        let rest = lemma_path_places(nodes, from + 1, to);
        let more = paths_from(nodes, from + 1, to);
        let all = paths_from(nodes, from, to);
        if nodes[from].tag == "path"@ {
            let at = seq![from] + rest;
            assert forall|k: int| 0 <= k < at.len() implies from <= #[trigger] at[k] < to
                && nodes[at[k]].tag == "path"@ && tells_path(nodes[at[k]], all[k]) by {
                if k > 0 {
                    assert(at[k] == rest[k - 1]);
                    assert(all[k] == more[k - 1]);
                }
            }
            assert forall|j: int|
                from <= j < to && (#[trigger] nodes[j]).tag == "path"@ implies at.contains(j) by {
                if j == from {
                    assert(at[0] == from);
                } else {
                    let k = choose|k: int| 0 <= k < rest.len() && rest[k] == j;
                    assert(at[k + 1] == j);
                }
            }
            at
        } else {
            rest
        }
    }
}

/// The paths of a revision are told of one by one and in order: every `path` that lies below it,
/// and nothing else.
pub proof fn law_every_path_is_told(nodes: Seq<xml::NodeView>, i: int) -> (at: Seq<int>)
    requires
        0 <= i < nodes.len(),
        nodes[i].tag == "logentry"@,
    ensures
        ({
            let paths = log_at(nodes, i).paths;
            &&& at.len() == paths.len()
            &&& forall|k: int, m: int| 0 <= k < m < at.len() ==> #[trigger] at[k] < #[trigger] at[m]
            &&& forall|j: int| #[trigger]
                at.contains(j) <==> xml::is_below(nodes, i, j) && nodes[j].tag == "path"@
            &&& forall|k: int|
                0 <= k < paths.len() ==> tells_path(nodes[at[k]], #[trigger] paths[k])
        }),
{
    reveal_strlit("logentry");
    reveal_strlit("path");
    assert("logentry"@.len() == 8 && "path"@.len() == 4);
    xml::law_what_lies_below_follows(nodes, i, i);
    let end = xml::end_of(nodes, i);
    let at = lemma_path_places(nodes, i, end);
    assert forall|j: int| #[trigger] at.contains(j) <==> xml::is_below(nodes, i, j) && nodes[j].tag
        == "path"@ by {
        xml::law_what_lies_below_follows(nodes, i, j);
        if at.contains(j) {
            let k = choose|k: int| 0 <= k < at.len() && at[k] == j;
            assert(nodes[at[k]].tag == "path"@);
        }
    }
    at
}

/// A reply of `svn log` is read revision by revision, in its order: every `logentry` is told of by
/// what its own attribute and children say, and nothing else is.
pub proof fn law_every_revision_is_told(nodes: Seq<xml::NodeView>, i: int) -> (at: Seq<int>)
    requires
        0 <= i <= nodes.len(),
    ensures
        ({
            let list = logs_from(nodes, i);
            &&& at.len() == list.len()
            &&& forall|k: int, m: int| 0 <= k < m < at.len() ==> #[trigger] at[k] < #[trigger] at[m]
            &&& forall|j: int| #[trigger]
                at.contains(j) <==> i <= j < nodes.len() && nodes[j].tag == "logentry"@
            &&& forall|k: int|
                0 <= k < list.len() ==> tells_revision(nodes, at[k], #[trigger] list[k])
                    && list[k].paths == log_at(nodes, at[k]).paths
        }),
    decreases nodes.len() - i,
{
    if i == nodes.len() {
        let at = Seq::<int>::empty();
        assert forall|j: int| #[trigger] at.contains(j) <==> i <= j < nodes.len()
            && nodes[j].tag == "logentry"@ by {}
        at
    } else {
        let rest = law_every_revision_is_told(nodes, i + 1);
        let more = logs_from(nodes, i + 1);
        let all = logs_from(nodes, i);
        if nodes[i].tag == "logentry"@ {
            lemma_log_at(nodes, i);
            let at = seq![i] + rest;
            assert forall|k: int, m: int| 0 <= k < m < at.len() implies #[trigger] at[k]
                < #[trigger] at[m] by {
                assert(at[m] == rest[m - 1]);
                assert(rest.contains(rest[m - 1]));
                if k > 0 {
                    assert(at[k] == rest[k - 1]);
                }
            }
            assert forall|k: int| 0 <= k < all.len() implies tells_revision(
                nodes,
                at[k],
                #[trigger] all[k],
            ) && all[k].paths == log_at(nodes, at[k]).paths by {
                if k > 0 {
                    assert(at[k] == rest[k - 1]);
                    assert(all[k] == more[k - 1]);
                }
            }
            assert forall|j: int| #[trigger] at.contains(j) <==> i <= j < nodes.len()
                && nodes[j].tag == "logentry"@ by {
                if at.contains(j) {
                    let k = choose|k: int| 0 <= k < at.len() && at[k] == j;
                    if k > 0 {
                        assert(rest[k - 1] == j);
                        assert(rest.contains(j));
                    }
                }
                if i <= j < nodes.len() && nodes[j].tag == "logentry"@ {
                    if j == i {
                        assert(at[0] == j);
                    } else {
                        assert(rest.contains(j));
                        let k = choose|k: int| 0 <= k < rest.len() && rest[k] == j;
                        assert(at[k + 1] == j);
                    }
                }
            }
            at
        } else {
            assert forall|j: int| #[trigger] rest.contains(j) <==> i <= j < nodes.len()
                && nodes[j].tag == "logentry"@ by {}
            rest
        }
    }
}

proof fn lemma_log_at(nodes: Seq<xml::NodeView>, i: int)
    requires
        0 <= i < nodes.len(),
    ensures
        tells_revision(nodes, i, log_at(nodes, i)),
{
    xml::law_first_child_is_found(nodes, "author"@, i);
    xml::law_first_child_is_found(nodes, "date"@, i);
    xml::law_first_child_is_found(nodes, "msg"@, i);
    let a = xml::child(nodes, "author"@, i);
    let d = xml::child(nodes, "date"@, i);
    let m = xml::child(nodes, "msg"@, i);
    assert(a >= 0 ==> xml::is_child(nodes, i, a, "author"@));
    assert(d >= 0 ==> xml::is_child(nodes, i, d, "date"@));
    assert(m >= 0 ==> xml::is_child(nodes, i, m, "msg"@));
}

/// What a reply of `svn info` says is what its first element of each name says: the first `entry`
/// its revision and its kind, the first `commit` the last revision.
pub proof fn law_info_is_what_comes_first(nodes: Seq<xml::NodeView>)
    ensures
        info_in(nodes) is Some <==> exists|k: int|
            0 <= k < nodes.len() && (#[trigger] nodes[k]).tag == "entry"@,
        info_in(nodes) matches Some(info) ==> {
            &&& info.is_wc
            &&& forall|k: int| #[trigger]
                xml::is_first(nodes, k, "entry"@) ==> info.revision == xml::attr_or(
                    nodes[k],
                    "revision"@,
                    Seq::empty(),
                ) && info.node_kind == xml::attr_or(nodes[k], "kind"@, Seq::empty())
            &&& forall|k: int| #[trigger]
                xml::is_first(nodes, k, "commit"@) ==> info.last_rev == xml::attr_or(
                    nodes[k],
                    "revision"@,
                    Seq::empty(),
                )
            &&& first_text(nodes, "url"@, info.url)
            &&& first_text(nodes, "root"@, info.repos_root)
            &&& first_text(nodes, "author"@, info.last_author)
            &&& first_text(nodes, "date"@, info.last_date)
            &&& (forall|k: int| 0 <= k < nodes.len() ==> (#[trigger] nodes[k]).tag != "commit"@)
                ==> info.last_rev.len() == 0
        },
{
    xml::law_first_element_is_found(nodes, "entry"@);
    xml::law_first_element_is_found(nodes, "commit"@);
    lemma_first_text(nodes, "url"@);
    lemma_first_text(nodes, "root"@);
    lemma_first_text(nodes, "author"@);
    lemma_first_text(nodes, "date"@);
    let e = xml::first_tagged(nodes, "entry"@, 0, nodes.len() as int);
    let c = xml::first_tagged(nodes, "commit"@, 0, nodes.len() as int);
    if e >= 0 {
        assert(nodes[e].tag == "entry"@);
    }
    if c >= 0 {
        assert(nodes[c].tag == "commit"@);
    }
}

/// `t` is the text of the first element called `tag`; empty where there is none.
pub open spec fn first_text(nodes: Seq<xml::NodeView>, tag: Seq<char>, t: Seq<char>) -> bool {
    &&& forall|k: int| #[trigger]
        xml::is_first(nodes, k, tag) ==> t == xml::text_or_empty(nodes[k])
    &&& (forall|k: int| 0 <= k < nodes.len() ==> (#[trigger] nodes[k]).tag != tag) ==> t.len() == 0
}

proof fn lemma_first_text(nodes: Seq<xml::NodeView>, tag: Seq<char>)
    ensures
        first_text(nodes, tag, xml::document_text(nodes, tag)),
{
    xml::law_first_element_is_found(nodes, tag);
    let f = xml::first_tagged(nodes, tag, 0, nodes.len() as int);
    if f >= 0 {
        assert(nodes[f].tag == tag);
    }
}

} // verus!
