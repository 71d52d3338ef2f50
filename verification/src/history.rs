//! The history page: which records are shown, where the hits of a search lie, how to walk from one
//! to the next, and the two windows that look at a single file.

use vstd::prelude::*;
use crate::date::{parse_date, Date};
use crate::search::{keeps, Search, SearchView};
use crate::stats::{self, RangePreset};
use crate::svn::{log_views, LogEntry, LogView};
use crate::text;

verus! {

/// The state of the history page.
#[derive(Debug)]
pub struct HistoryPage {
    pub dir: usize,
    pub label: String,
    pub limit: i64,
    pub entries: Vec<LogEntry>,
    pub error: String,
    pub filter: String,
    /// The three switches beside the filter. They hold for this page only.
    pub search_case: bool,
    pub search_regex: bool,
    pub search_word: bool,
    /// A step to the next or the previous hit that is still to be taken.
    pub step: Option<i64>,
    /// The hit that was stepped to, as an index into the hits.
    pub spot: Option<usize>,
    /// The record that the list has to scroll to.
    pub jump: Option<usize>,
    /// The path that the details have to scroll to.
    pub focus_path: Option<usize>,
    pub picked: Option<usize>,
    /// Who is logged in here; empty where that is not known.
    pub author: String,
    /// Only the commits of `author` are asked for.
    pub mine: bool,
    /// The number of records is not limited.
    pub unlimited: bool,
    /// The preset that is lit; none where the newest records are read by their number.
    pub preset: Option<RangePreset>,
    /// The range of days that is read.
    pub range: Option<(Date, Date)>,
    /// The two typed dates of a range of one's own.
    pub custom_from: String,
    pub custom_to: String,
    /// What is wrong with the typed range.
    pub range_error: String,
}

// ---------------------------------------------------------------- what is shown

/// A record of the time `when` lies in `range`. Records whose day cannot be read lie in none.
pub open spec fn fits(range: Option<(Date, Date)>, when: Seq<char>) -> bool {
    range is None || match stats::day_of(when) {
        Some(day) => stats::covers(range, day),
        None => false,
    }
}

/// There is a hit in the message, the author or the revision.
pub open spec fn row_hit(search: SearchView, e: LogView) -> bool {
    keeps(search, e.message) || keeps(search, e.author) || keeps(search, e.revision)
}

/// There is a hit in path `k`.
pub open spec fn path_hit(search: SearchView, e: LogView, k: int) -> bool {
    0 <= k < e.paths.len() && keeps(search, e.paths[k].path)
}

/// A record is shown: it lies in the range, and there is a hit somewhere in it.
pub open spec fn shows(range: Option<(Date, Date)>, search: SearchView, e: LogView) -> bool {
    fits(range, e.date) && (search.needle.len() == 0 || row_hit(search, e) || exists|k: int|
        path_hit(search, e, k))
}

/// The positions of the shown records among the first `n`, in order.
pub open spec fn shown_among(
    entries: Seq<LogView>,
    range: Option<(Date, Date)>,
    search: SearchView,
    n: int,
) -> Seq<usize>
    decreases n,
{
    if n <= 0 {
        Seq::empty()
    } else {
        let before = shown_among(entries, range, search, n - 1);
        if shows(range, search, entries[n - 1]) {
            before.push((n - 1) as usize)
        } else {
            before
        }
    }
}

/// The positions of the shown records.
pub open spec fn visible(
    entries: Seq<LogView>,
    range: Option<(Date, Date)>,
    search: SearchView,
) -> Seq<usize> {
    shown_among(entries, range, search, entries.len() as int)
}

proof fn lemma_shown_among(
    entries: Seq<LogView>,
    range: Option<(Date, Date)>,
    search: SearchView,
    n: int,
)
    requires
        0 <= n <= entries.len() <= usize::MAX,
    ensures
        forall|j: int|
            #![trigger shown_among(entries, range, search, n)[j]]
            0 <= j < shown_among(entries, range, search, n).len() ==> {
                let i = shown_among(entries, range, search, n)[j];
                i < n && shows(range, search, entries[i as int])
            },
        forall|i: int|
            #![trigger entries[i]]
            0 <= i < n && shows(range, search, entries[i]) ==> shown_among(
                entries,
                range,
                search,
                n,
            ).contains(i as usize),
    decreases n,
{
    if n > 0 {
        lemma_shown_among(entries, range, search, n - 1);
        let before = shown_among(entries, range, search, n - 1);
        let all = shown_among(entries, range, search, n);
        assert forall|i: int|
            #![trigger entries[i]]
            0 <= i < n && shows(range, search, entries[i]) implies all.contains(i as usize) by {
            if i == n - 1 {
                assert(all[all.len() - 1] == i as usize);
            } else {
                let j = choose|j: int| 0 <= j < before.len() && before[j] == i as usize;
                assert(all[j] == i as usize);
            }
        }
    }
}

/// The list shows exactly the records that fit the range and the search, however many days the
/// server was asked for beyond the range.
pub proof fn law_list_shows_what_fits(
    entries: Seq<LogView>,
    range: Option<(Date, Date)>,
    search: SearchView,
    i: usize,
)
    requires
        entries.len() <= usize::MAX,
        i < entries.len(),
    ensures
        visible(entries, range, search).contains(i) <==> shows(range, search, entries[i as int]),
{
    lemma_shown_among(entries, range, search, entries.len() as int);
    if visible(entries, range, search).contains(i) {
        let all = visible(entries, range, search);
        let j = choose|j: int| 0 <= j < all.len() && all[j] == i;
        assert(all[j] == i);
    }
}

/// The hits of a search in one record.
struct Hits {
    row: bool,
    paths: Vec<bool>,
}

/// `h` holds the hits in `e`.
spec fn hits_of(search: SearchView, e: LogView, h: Hits) -> bool {
    &&& h.row == row_hit(search, e)
    &&& h.paths@.len() == e.paths.len()
    &&& forall|k: int|
        0 <= k < e.paths.len() ==> #[trigger] h.paths@[k] == keeps(search, e.paths[k].path)
}

/// The texts of `e` stand in `texts` from `at` on.
spec fn laid_out(texts: Seq<String>, at: int, e: LogView) -> bool {
    &&& 0 <= at
    &&& at + 3 + e.paths.len() <= texts.len()
    &&& texts[at]@ == e.message
    &&& texts[at + 1]@ == e.author
    &&& texts[at + 2]@ == e.revision
    &&& forall|k: int|
        #![trigger e.paths[k]]
        0 <= k < e.paths.len() ==> texts[at + 3 + k]@ == e.paths[k].path
}

/// All texts of the records one after the other, and where each record starts.
fn lay_out(entries: &Vec<LogEntry>) -> (r: (Vec<String>, Vec<usize>))
    ensures
        r.1@.len() == entries@.len(),
        forall|i: int|
            0 <= i < entries@.len() ==> laid_out(r.0@, (#[trigger] r.1@[i]) as int, entries@[i]@),
{
    let mut texts: Vec<String> = Vec::new();
    let mut starts: Vec<usize> = Vec::new();
    let mut i: usize = 0;
    while i < entries.len()
        invariant
            i <= entries.len(),
            starts@.len() == i,
            forall|j: int|
                0 <= j < i ==> laid_out(texts@, (#[trigger] starts@[j]) as int, entries@[j]@),
        decreases entries.len() - i,
    {
        let e = &entries[i];
        let at = texts.len();
        let ghost before = texts@;
        texts.push(e.message.clone());
        texts.push(e.author.clone());
        texts.push(e.revision.clone());
        let mut k: usize = 0;
        while k < e.paths.len()
            invariant
                k <= e.paths.len(),
                at == before.len(),
                texts@.len() == at + 3 + k,
                forall|j: int| 0 <= j < at ==> #[trigger] texts@[j] == before[j],
                texts@[at as int]@ == e@.message,
                texts@[at + 1]@ == e@.author,
                texts@[at + 2]@ == e@.revision,
                forall|j: int|
                    #![trigger e@.paths[j]]
                    0 <= j < k ==> texts@[at + 3 + j]@ == e@.paths[j].path,
            decreases e.paths.len() - k,
        {
            texts.push(e.paths[k].path.clone());
            k += 1;
        }
        starts.push(at);
        assert(laid_out(texts@, at as int, e@));
        assert forall|j: int| 0 <= j < i implies laid_out(
            texts@,
            (#[trigger] starts@[j]) as int,
            entries@[j]@,
        ) by {
            assert(laid_out(before, starts@[j] as int, entries@[j]@));
        }
        i += 1;
    }
    (texts, starts)
}

/// The hits of `search` in each record. An expression is compiled once for all of them.
fn hit_table(entries: &Vec<LogEntry>, search: &Search) -> (r: Vec<Hits>)
    ensures
        r@.len() == entries@.len(),
        forall|i: int| 0 <= i < r@.len() ==> hits_of(search@, entries@[i]@, #[trigger] r@[i]),
{
    let (texts, starts) = lay_out(entries);
    let flags = search.hits_each(&texts);
    let mut table: Vec<Hits> = Vec::new();
    let mut i: usize = 0;
    while i < entries.len()
        invariant
            i <= entries.len(),
            starts@.len() == entries@.len(),
            forall|j: int|
                0 <= j < entries@.len() ==> laid_out(
                    texts@,
                    (#[trigger] starts@[j]) as int,
                    entries@[j]@,
                ),
            flags.len() == texts@.len(),
            forall|j: int| 0 <= j < flags@.len() ==> #[trigger] flags@[j] == keeps(
                search@,
                texts@[j]@,
            ),
            table@.len() == i,
            forall|j: int| 0 <= j < i ==> hits_of(search@, entries@[j]@, #[trigger] table@[j]),
        decreases entries.len() - i,
    {
        let at = starts[i];
        let n = entries[i].paths.len();
        let ghost e = entries@[i as int]@;
        assert(laid_out(texts@, at as int, e));
        let row = flags[at] || flags[at + 1] || flags[at + 2];
        let mut paths: Vec<bool> = Vec::new();
        let mut k: usize = 0;
        while k < n
            invariant
                k <= n,
                n == e.paths.len(),
                laid_out(texts@, at as int, e),
                flags.len() == texts@.len(),
                forall|j: int| 0 <= j < flags@.len() ==> #[trigger] flags@[j] == keeps(
                    search@,
                    texts@[j]@,
                ),
                paths@.len() == k,
                forall|j: int| 0 <= j < k ==> #[trigger] paths@[j] == keeps(
                    search@,
                    e.paths[j].path,
                ),
            decreases n - k,
        {
            paths.push(flags[at + 3 + k]);
            assert(e.paths[k as int].path == texts@[at + 3 + k]@);
            k += 1;
        }
        table.push(Hits { row, paths });
        assert(hits_of(search@, e, table@[i as int]));
        i += 1;
    }
    table
}

/// Whether one of the flags is set.
fn any(flags: &Vec<bool>) -> (r: bool)
    ensures
        r == exists|k: int| 0 <= k < flags@.len() && #[trigger] flags@[k],
{
    let mut k: usize = 0;
    while k < flags.len()
        invariant
            k <= flags.len(),
            forall|j: int| 0 <= j < k ==> !#[trigger] flags@[j],
        decreases flags.len() - k,
    {
        if flags[k] {
            return true;
        }
        k += 1;
    }
    false
}

/// Whether a record of the time `when` lies in `range`.
fn in_range(range: Option<(Date, Date)>, when: &str) -> (r: bool)
    requires
        crate::date::span_wf(range),
    ensures
        r == fits(range, when@),
{
    match range {
        None => true,
        Some((from, to)) => match text::first_bytes(when, 10) {
            None => false,
            Some(head) => match parse_date(head.as_str()) {
                None => false,
                Some(day) => !day.is_before(from) && !to.is_before(day),
            },
        },
    }
}

impl HistoryPage {
    /// The page about directory `dir`, as it opens.
    pub open spec fn opens(
        self,
        dir: usize,
        label: Seq<char>,
        limit: i64,
        author: Seq<char>,
        only_mine: bool,
    ) -> bool {
        &&& self.dir == dir
        &&& self.label@ == label
        &&& self.limit == limit
        &&& self.entries@.len() == 0
        &&& self.error@.len() == 0
        &&& self.filter@.len() == 0
        &&& !self.search_case && !self.search_regex && !self.search_word
        &&& self.step is None && self.spot is None && self.jump is None && self.focus_path is None
        &&& self.picked is None
        &&& self.author@ == author
        &&& self.mine == (only_mine && text::trim(author).len() > 0)
        &&& !self.unlimited
        &&& self.preset is None
        &&& self.range is None
        &&& self.custom_from@.len() == 0
        &&& self.custom_to@.len() == 0
        &&& self.range_error@.len() == 0
    }

    /// The page as it opens. `only_mine` asks for the commits of `author`, where there is one.
    pub fn new(
        dir: usize,
        label: String,
        limit: i64,
        author: String,
        only_mine: bool,
    ) -> (r: HistoryPage)
        ensures
            r.opens(dir, label@, limit, author@, only_mine),
    {
        let mine = only_mine && !text::blank(author.as_str());
        HistoryPage {
            dir,
            label,
            limit,
            entries: Vec::new(),
            error: String::new(),
            filter: String::new(),
            search_case: false,
            search_regex: false,
            search_word: false,
            step: None,
            spot: None,
            jump: None,
            focus_path: None,
            picked: None,
            author,
            mine,
            unlimited: false,
            preset: None,
            range: None,
            custom_from: String::new(),
            custom_to: String::new(),
            range_error: String::new(),
        }
    }

    /// The conditions that are typed on the page.
    pub fn search(&self) -> (r: Search)
        ensures
            r@ == crate::search::search_for(
                self.filter@,
                self.search_case,
                self.search_regex,
                self.search_word,
            ),
    {
        Search::build(
            self.filter.as_str(),
            self.search_case,
            self.search_regex,
            self.search_word,
        )
    }

    /// The positions of the records that `search` and the range leave in the list.
    pub fn visible_with(&self, search: &Search) -> (r: Vec<usize>)
        requires
            crate::date::span_wf(self.range),
        ensures
            r@ == visible(log_views(self.entries@), self.range, search@),
            forall|j: int| 0 <= j < r@.len() ==> #[trigger] r@[j] < self.entries@.len(),
    {
        let table = hit_table(&self.entries, search);
        let ghost lv = log_views(self.entries@);
        let none = search.is_empty();
        let mut out: Vec<usize> = Vec::new();
        let mut i: usize = 0;
        while i < self.entries.len()
            invariant
                i <= self.entries.len(),
                crate::date::span_wf(self.range),
                lv == log_views(self.entries@),
                none == (search@.needle.len() == 0),
                table@.len() == self.entries@.len(),
                forall|j: int|
                    0 <= j < table@.len() ==> hits_of(
                        search@,
                        self.entries@[j]@,
                        #[trigger] table@[j],
                    ),
                out@ == shown_among(lv, self.range, search@, i as int),
                forall|j: int| 0 <= j < out@.len() ==> #[trigger] out@[j] < i,
            decreases self.entries.len() - i,
        {
            let ghost e = self.entries@[i as int]@;
            assert(hits_of(search@, e, table@[i as int]));
            let inside = any(&table[i].paths);
            proof {
                if inside {
                    let k = choose|k: int|
                        0 <= k < table@[i as int].paths@.len()
                            && #[trigger] table@[i as int].paths@[k];
                    assert(path_hit(search@, e, k));
                } else {
                    assert forall|k: int| !path_hit(search@, e, k) by {
                        if 0 <= k < e.paths.len() {
                            assert(!table@[i as int].paths@[k]);
                        }
                    }
                }
            }
            if in_range(self.range, self.entries[i].date.as_str()) && (none || table[i].row
                || inside) {
                out.push(i);
            }
            i += 1;
        }
        out
    }
}

// ---------------------------------------------------------------- hits

/// Where a hit lies.
#[derive(Clone, Copy, Debug, PartialEq, Eq, Structural)]
pub enum Spot {
    /// In the message, the author or the revision of a record.
    Row(usize),
    /// In a path of a record.
    Path(usize, usize),
}

impl Spot {
    /// The record that the hit belongs to.
    pub open spec fn record(self) -> usize {
        match self {
            Spot::Row(i) => i,
            Spot::Path(i, _) => i,
        }
    }

    /// The record that the hit belongs to.
    pub fn entry(self) -> (r: usize)
        ensures
            r == self.record(),
    {
        match self {
            Spot::Row(index) => index,
            Spot::Path(index, _) => index,
        }
    }
}

/// The hits in the first `n` paths of record `i`, top down.
pub open spec fn path_spots(search: SearchView, e: LogView, i: usize, n: int) -> Seq<Spot>
    decreases n,
{
    if n <= 0 {
        Seq::empty()
    } else {
        let before = path_spots(search, e, i, n - 1);
        if keeps(search, e.paths[n - 1].path) {
            before.push(Spot::Path(i, (n - 1) as usize))
        } else {
            before
        }
    }
}

/// The hits in record `i`: what stands in the list comes first, its paths follow.
pub open spec fn record_spots(search: SearchView, e: LogView, i: usize) -> Seq<Spot> {
    let row = if row_hit(search, e) {
        seq![Spot::Row(i)]
    } else {
        Seq::empty()
    };
    row + path_spots(search, e, i, e.paths.len() as int)
}

/// The hits in the first `n` records of the list, in the order in which they are seen.
pub open spec fn spots_among(
    entries: Seq<LogView>,
    shown: Seq<usize>,
    search: SearchView,
    n: int,
) -> Seq<Spot>
    decreases n,
{
    if n <= 0 {
        Seq::empty()
    } else {
        spots_among(entries, shown, search, n - 1) + record_spots(
            search,
            entries[shown[n - 1] as int],
            shown[n - 1],
        )
    }
}

/// The hits in the list, in the order in which they are seen: record by record, top down, in each
/// record first what stands in the list and then its paths.
pub fn spots_of(entries: &Vec<LogEntry>, visible: &Vec<usize>, search: &Search) -> (r: Vec<Spot>)
    requires
        forall|j: int| 0 <= j < visible@.len() ==> #[trigger] visible@[j] < entries@.len(),
    ensures
        r@ == spots_among(log_views(entries@), visible@, search@, visible@.len() as int),
{
    let table = hit_table(entries, search);
    let ghost lv = log_views(entries@);
    let mut out: Vec<Spot> = Vec::new();
    let mut v: usize = 0;
    while v < visible.len()
        invariant
            v <= visible.len(),
            lv == log_views(entries@),
            forall|j: int| 0 <= j < visible@.len() ==> #[trigger] visible@[j] < entries@.len(),
            table@.len() == entries@.len(),
            forall|j: int|
                0 <= j < table@.len() ==> hits_of(search@, entries@[j]@, #[trigger] table@[j]),
            out@ == spots_among(lv, visible@, search@, v as int),
        decreases visible.len() - v,
    {
        let i = visible[v];
        let ghost e = entries@[i as int]@;
        let ghost start = out@;
        assert(hits_of(search@, e, table@[i as int]));
        if table[i].row {
            out.push(Spot::Row(i));
        }
        let ghost head = out@;
        let n = table[i].paths.len();
        assert(head + path_spots(search@, e, i, 0) =~= head);
        let mut k: usize = 0;
        while k < n
            invariant
                k <= n,
                n == e.paths.len(),
                i < table@.len(),
                n == table@[i as int].paths@.len(),
                hits_of(search@, e, table@[i as int]),
                out@ == head + path_spots(search@, e, i, k as int),
            decreases n - k,
        {
            let ghost before = out@;
            if table[i].paths[k] {
                out.push(Spot::Path(i, k));
            }
            k += 1;
            assert(out@ =~= head + path_spots(search@, e, i, k as int));
        }
        assert(out@ =~= start + record_spots(search@, e, i));
        v += 1;
    }
    out
}

/// The hit that a step of `delta` from `current` leads to, round and round. From nowhere, a step
/// down leads to the first hit and a step up to the last.
pub open spec fn stepped(count: int, current: Option<usize>, delta: int) -> Option<int> {
    if count <= 0 {
        None
    } else {
        let at = match current {
            Some(at) => if at < count {
                at as int
            } else if delta > 0 {
                -1
            } else {
                0
            },
            None => if delta > 0 {
                -1
            } else {
                0
            },
        };
        Some((at + delta) % count)
    }
}

/// The hit that a step leads to, among `count` hits.
pub fn step_spot(count: usize, current: Option<usize>, delta: i64) -> (r: Option<usize>)
    ensures
        match r {
            Some(at) => stepped(count as int, current, delta as int) == Some(at as int) && at
                < count,
            None => stepped(count as int, current, delta as int) is None && count == 0,
        },
{
    if count == 0 {
        return None;
    }
    let from: i128 = match current {
        Some(at) => if at < count {
            at as i128
        } else if delta > 0 {
            -1
        } else {
            0
        },
        None => if delta > 0 {
            -1
        } else {
            0
        },
    };
    let sum: i128 = from + delta as i128;
    let c: u128 = count as u128;
    let at: u128 = if sum >= 0 {
        (sum as u128) % c
    } else {
        let back: u128 = ((-sum) as u128) % c;
        let r: u128 = if back == 0 {
            0
        } else {
            c - back
        };
        proof {
            let up = (-sum) as int;
            let q = up / (c as int);
            vstd::arithmetic::div_mod::lemma_fundamental_div_mod(up, c as int);
            if back == 0 {
                assert(sum == (-q) * c + 0) by (nonlinear_arith)
                    requires
                        -sum == c * q + 0,
                ;
                vstd::arithmetic::div_mod::lemma_fundamental_div_mod_converse(
                    sum as int,
                    c as int,
                    -q,
                    0,
                );
            } else {
                assert(sum == (-q - 1) * c + (c - back)) by (nonlinear_arith)
                    requires
                        -sum == c * q + back,
                ;
                vstd::arithmetic::div_mod::lemma_fundamental_div_mod_converse(
                    sum as int,
                    c as int,
                    -q - 1,
                    c - back,
                );
            }
        }
        r
    };
    Some(at as usize)
}

/// A step to the next hit and back again ends where it began, whichever comes first.
pub proof fn law_steps_forth_and_back(count: int, at: usize)
    requires
        at < count <= usize::MAX,
    ensures
        stepped(count, Some(stepped(count, Some(at), 1)->0 as usize), -1) == Some(at as int),
        stepped(count, Some(stepped(count, Some(at), -1)->0 as usize), 1) == Some(at as int),
{
    let n = count;
    if at + 1 < n {
        vstd::arithmetic::div_mod::lemma_small_mod((at + 1) as nat, n as nat);
    } else {
        vstd::arithmetic::div_mod::lemma_mod_self_0(n);
        vstd::arithmetic::div_mod::lemma_fundamental_div_mod_converse(-1, n, -1, n - 1);
    }
    if at > 0 {
        vstd::arithmetic::div_mod::lemma_small_mod((at - 1) as nat, n as nat);
    } else {
        vstd::arithmetic::div_mod::lemma_fundamental_div_mod_converse(-1, n, -1, n - 1);
        vstd::arithmetic::div_mod::lemma_mod_self_0(n);
    }
    vstd::arithmetic::div_mod::lemma_small_mod(at as nat, n as nat);
}

/// From nowhere, a step down leads to the first hit and a step up to the last.
pub proof fn law_first_step_lands(count: int)
    requires
        0 < count <= usize::MAX,
    ensures
        stepped(count, None, 1) == Some(0int),
        stepped(count, None, -1) == Some(count - 1),
{
    vstd::arithmetic::div_mod::lemma_small_mod(0, count as nat);
    vstd::arithmetic::div_mod::lemma_fundamental_div_mod_converse(-1, count, -1, count - 1);
}

// ---------------------------------------------------------------- what a search finds

/// The day of the record lies between the two days of the range, where there is a range.
pub open spec fn day_fits(range: Option<(Date, Date)>, e: LogView) -> bool {
    range matches Some((from, to)) ==> exists|day: Date|
        stats::day_of(e.date) == Some(day) && from.number() <= #[trigger] day.number()
            <= to.number()
}

/// The search has a hit in one of the paths.
pub open spec fn some_path_hit(search: SearchView, e: LogView) -> bool {
    exists|k: int| 0 <= k < e.paths.len() && keeps(search, (#[trigger] e.paths[k]).path)
}

proof fn lemma_shown_ascends(
    entries: Seq<LogView>,
    range: Option<(Date, Date)>,
    search: SearchView,
    n: int,
)
    requires
        0 <= n <= entries.len() <= usize::MAX,
    ensures
        forall|j: int, k: int|
            #![trigger shown_among(entries, range, search, n)[j], shown_among(
                entries,
                range,
                search,
                n,
            )[k]]
            0 <= j < k < shown_among(entries, range, search, n).len() ==> shown_among(
                entries,
                range,
                search,
                n,
            )[j] < shown_among(entries, range, search, n)[k],
        forall|j: int|
            0 <= j < shown_among(entries, range, search, n).len() ==> #[trigger] shown_among(
                entries,
                range,
                search,
                n,
            )[j] < n,
    decreases n,
{
    if n > 0 {
        lemma_shown_ascends(entries, range, search, n - 1);
        let before = shown_among(entries, range, search, n - 1);
        let all = shown_among(entries, range, search, n);
        assert forall|j: int| 0 <= j < all.len() implies #[trigger] all[j] < n by {
            if j < before.len() {
                assert(all[j] == before[j]);
            }
        }
        assert forall|j: int, k: int| 0 <= j < k < all.len() implies #[trigger] all[j]
            < #[trigger] all[k] by {
            assert(all[j] == before[j]);
            if k < before.len() {
                assert(all[k] == before[k]);
            }
        }
    }
}

/// A record whose day lies in the range is shown where the search has a hit in its message, in its
/// author, in its revision or in one of its paths, each for itself, and where nothing is searched
/// for. No other record is shown. The list keeps the order of the records.
pub proof fn law_every_hit_shows_its_record(
    entries: Seq<LogView>,
    range: Option<(Date, Date)>,
    search: SearchView,
    i: usize,
)
    requires
        entries.len() <= usize::MAX,
        i < entries.len(),
        crate::date::span_wf(range),
    ensures
        ({
            let e = entries[i as int];
            let list = visible(entries, range, search);
            &&& day_fits(range, e) && search.needle.len() == 0 ==> list.contains(i)
            &&& day_fits(range, e) && keeps(search, e.message) ==> list.contains(i)
            &&& day_fits(range, e) && keeps(search, e.author) ==> list.contains(i)
            &&& day_fits(range, e) && keeps(search, e.revision) ==> list.contains(i)
            &&& day_fits(range, e) && some_path_hit(search, e) ==> list.contains(i)
            &&& list.contains(i) ==> day_fits(range, e)
            &&& list.contains(i) ==> search.needle.len() == 0 || keeps(search, e.message) || keeps(
                search,
                e.author,
            ) || keeps(search, e.revision) || some_path_hit(search, e)
            &&& forall|j: int, k: int|
                0 <= j < k < list.len() ==> #[trigger] list[j] < #[trigger] list[k]
        }),
{
    let e = entries[i as int];
    law_list_shows_what_fits(entries, range, search, i);
    lemma_shown_ascends(entries, range, search, entries.len() as int);
    assert(some_path_hit(search, e) <==> exists|k: int| path_hit(search, e, k)) by {
        if some_path_hit(search, e) {
            let k = choose|k: int|
                0 <= k < e.paths.len() && keeps(search, (#[trigger] e.paths[k]).path);
            assert(path_hit(search, e, k));
        }
        if exists|k: int| path_hit(search, e, k) {
            let k = choose|k: int| path_hit(search, e, k);
            assert(keeps(search, e.paths[k].path));
        }
    }
    assert(day_fits(range, e) <==> fits(range, e.date)) by {
        if let Some((from, to)) = range {
            match stats::day_of(e.date) {
                Some(day) => {
                    assert(day.number() == day.number());
                },
                None => {},
            }
        }
    }
}

/// `a` is seen before `b`: in an earlier record, or in the list rather than in a path of the same
/// record, or in an earlier path of it.
pub open spec fn seen_before(a: Spot, b: Spot) -> bool {
    match (a, b) {
        (Spot::Row(i), Spot::Row(j)) => i < j,
        (Spot::Row(i), Spot::Path(j, _)) => i <= j,
        (Spot::Path(i, _), Spot::Row(j)) => i < j,
        (Spot::Path(i, k), Spot::Path(j, m)) => i < j || i == j && k < m,
    }
}

/// The hit in the list is one of the search: it lies in the message, the author or the revision of
/// a record, or in one of its paths.
pub open spec fn is_spot(entries: Seq<LogView>, search: SearchView, spot: Spot) -> bool {
    match spot {
        Spot::Row(i) => {
            ||| keeps(search, entries[i as int].message)
            ||| keeps(search, entries[i as int].author)
            ||| keeps(search, entries[i as int].revision)
        },
        Spot::Path(i, k) => k < entries[i as int].paths.len() && keeps(
            search,
            entries[i as int].paths[k as int].path,
        ),
    }
}

proof fn lemma_path_spots_found(search: SearchView, e: LogView, i: usize, n: int)
    requires
        0 <= n <= e.paths.len(),
        e.paths.len() <= usize::MAX,
    ensures
        forall|s: Spot| #[trigger]
            path_spots(search, e, i, n).contains(s) <==> (s matches Spot::Path(j, k) && j == i && k
                < n && keeps(search, e.paths[k as int].path)),
        forall|a: int, b: int|
            #![trigger path_spots(search, e, i, n)[a], path_spots(search, e, i, n)[b]]
            0 <= a < b < path_spots(search, e, i, n).len() ==> seen_before(
                path_spots(search, e, i, n)[a],
                path_spots(search, e, i, n)[b],
            ),
    decreases n,
{
    if n > 0 {
        lemma_path_spots_found(search, e, i, n - 1);
        let before = path_spots(search, e, i, n - 1);
        let all = path_spots(search, e, i, n);
        let new = Spot::Path(i, (n - 1) as usize);
        assert forall|s: Spot| #[trigger]
            all.contains(s) <==> (s matches Spot::Path(j, k) && j == i && k < n && keeps(
                search,
                e.paths[k as int].path,
            )) by {
            if keeps(search, e.paths[n - 1].path) {
                assert(all[before.len() as int] == new);
                if before.contains(s) {
                    let k = choose|k: int| 0 <= k < before.len() && before[k] == s;
                    assert(all[k] == s);
                }
                if all.contains(s) {
                    let k = choose|k: int| 0 <= k < all.len() && all[k] == s;
                    if k < before.len() {
                        assert(before[k] == s);
                        assert(before.contains(s));
                    }
                }
            }
        }
        assert forall|a: int, b: int| 0 <= a < b < all.len() implies seen_before(
            #[trigger] all[a],
            #[trigger] all[b],
        ) by {
            assert(all[a] == before[a]);
            assert(before.contains(before[a]));
            if b < before.len() {
                assert(all[b] == before[b]);
            }
        }
    }
}

proof fn lemma_record_spots(entries: Seq<LogView>, search: SearchView, i: usize)
    requires
        i < entries.len(),
        entries[i as int].paths.len() <= usize::MAX,
    ensures
        ({
            let here = record_spots(search, entries[i as int], i);
            &&& forall|s: Spot| #[trigger]
                here.contains(s) <==> s.record() == i && is_spot(entries, search, s)
            &&& forall|a: int, b: int|
                0 <= a < b < here.len() ==> seen_before(#[trigger] here[a], #[trigger] here[b])
        }),
{
    let e = entries[i as int];
    let here = record_spots(search, e, i);
    let paths = path_spots(search, e, i, e.paths.len() as int);
    lemma_path_spots_found(search, e, i, e.paths.len() as int);
    let r = here.len() - paths.len();
    assert forall|k: int| 0 <= k < here.len() implies #[trigger] here[k] == if k < r {
        Spot::Row(i)
    } else {
        paths[k - r]
    } by {}
    assert forall|s: Spot| #[trigger] here.contains(s) <==> s.record() == i && is_spot(
        entries,
        search,
        s,
    ) by {
        if here.contains(s) {
            let k = choose|k: int| 0 <= k < here.len() && here[k] == s;
            if k >= r {
                assert(paths.contains(paths[k - r]));
            }
        }
        if s.record() == i && is_spot(entries, search, s) {
            match s {
                Spot::Row(_) => {
                    assert(here[0] == s);
                },
                Spot::Path(_, _) => {
                    assert(paths.contains(s));
                    let k = choose|k: int| 0 <= k < paths.len() && paths[k] == s;
                    assert(here[k + r] == s);
                },
            }
        }
    }
    assert forall|a: int, b: int| 0 <= a < b < here.len() implies seen_before(
        #[trigger] here[a],
        #[trigger] here[b],
    ) by {
        if a < r {
            assert(paths.contains(paths[b - r]));
        }
    }
}

proof fn lemma_spots_found(entries: Seq<LogView>, shown: Seq<usize>, search: SearchView, n: int)
    requires
        0 <= n <= shown.len(),
        forall|j: int| 0 <= j < shown.len() ==> #[trigger] shown[j] < entries.len(),
        forall|i: int|
            0 <= i < entries.len() ==> (#[trigger] entries[i]).paths.len() <= usize::MAX,
    ensures
        ({
            let spots = spots_among(entries, shown, search, n);
            &&& forall|s: Spot| #[trigger]
                spots.contains(s) <==> shown.take(n).contains(s.record()) && is_spot(
                    entries,
                    search,
                    s,
                )
            &&& (forall|j: int, k: int|
                0 <= j < k < shown.len() ==> #[trigger] shown[j] < #[trigger] shown[k]) ==> forall|
                a: int,
                b: int,
            |
                0 <= a < b < spots.len() ==> seen_before(#[trigger] spots[a], #[trigger] spots[b])
        }),
    decreases n,
{
    let all = spots_among(entries, shown, search, n);
    if n > 0 {
        lemma_spots_found(entries, shown, search, n - 1);
        let i = shown[n - 1];
        lemma_record_spots(entries, search, i);
        let before = spots_among(entries, shown, search, n - 1);
        let here = record_spots(search, entries[i as int], i);
        let m = before.len() as int;
        let front = shown.take(n - 1);
        let head = shown.take(n);
        assert forall|k: int| 0 <= k < all.len() implies #[trigger] all[k] == if k < m {
            before[k]
        } else {
            here[k - m]
        } by {}
        assert forall|s: Spot| #[trigger] all.contains(s) <==> shown.take(n).contains(s.record())
            && is_spot(entries, search, s) by {
            if all.contains(s) {
                let k = choose|k: int| 0 <= k < all.len() && all[k] == s;
                if k < m {
                    assert(before.contains(before[k]));
                    let t = choose|t: int| 0 <= t < front.len() && front[t] == s.record();
                    assert(head[t] == s.record());
                } else {
                    assert(here.contains(here[k - m]));
                    assert(head[n - 1] == s.record());
                }
            }
            if shown.take(n).contains(s.record()) && is_spot(entries, search, s) {
                let t = choose|t: int| 0 <= t < head.len() && head[t] == s.record();
                if t == n - 1 {
                    assert(here.contains(s));
                    let k = choose|k: int| 0 <= k < here.len() && here[k] == s;
                    assert(all[k + m] == s);
                } else {
                    assert(front[t] == s.record());
                    assert(before.contains(s));
                    let k = choose|k: int| 0 <= k < before.len() && before[k] == s;
                    assert(all[k] == s);
                }
            }
        }
        if forall|j: int, k: int|
            0 <= j < k < shown.len() ==> #[trigger] shown[j] < #[trigger] shown[k] {
            assert forall|a: int, b: int| 0 <= a < b < all.len() implies seen_before(
                #[trigger] all[a],
                #[trigger] all[b],
            ) by {
                if a < m && m <= b {
                    assert(before.contains(before[a]));
                    assert(here.contains(here[b - m]));
                    let r = all[a].record();
                    let t = choose|t: int| 0 <= t < front.len() && front[t] == r;
                    assert(shown[t] < shown[n - 1]);
                }
            }
        }
    } else {
        assert(shown.take(0) =~= Seq::empty());
    }
}

/// A hit is listed for a record of the list where the search has one in its message, in its author
/// or in its revision, each for itself, and for each of its paths with a hit. Nothing else is
/// listed. Where the list is in order, so are the hits: record by record, what stands in the list
/// before the paths, the paths top down.
pub proof fn law_every_hit_has_its_spot(
    entries: Seq<LogView>,
    shown: Seq<usize>,
    search: SearchView,
)
    requires
        forall|j: int| 0 <= j < shown.len() ==> #[trigger] shown[j] < entries.len(),
        forall|i: int|
            0 <= i < entries.len() ==> (#[trigger] entries[i]).paths.len() <= usize::MAX,
    ensures
        ({
            let spots = spots_among(entries, shown, search, shown.len() as int);
            &&& forall|i: usize| #[trigger]
                shown.contains(i) && keeps(search, entries[i as int].message) ==> spots.contains(
                    Spot::Row(i),
                )
            &&& forall|i: usize| #[trigger]
                shown.contains(i) && keeps(search, entries[i as int].author) ==> spots.contains(
                    Spot::Row(i),
                )
            &&& forall|i: usize| #[trigger]
                shown.contains(i) && keeps(search, entries[i as int].revision) ==> spots.contains(
                    Spot::Row(i),
                )
            &&& forall|i: usize, k: usize|
                #![trigger spots.contains(Spot::Path(i, k))]
                shown.contains(i) && k < entries[i as int].paths.len() && keeps(
                    search,
                    entries[i as int].paths[k as int].path,
                ) ==> spots.contains(Spot::Path(i, k))
            &&& forall|s: Spot| #[trigger]
                spots.contains(s) ==> shown.contains(s.record()) && match s {
                    Spot::Row(i) => keeps(search, entries[i as int].message) || keeps(
                        search,
                        entries[i as int].author,
                    ) || keeps(search, entries[i as int].revision),
                    Spot::Path(i, k) => k < entries[i as int].paths.len() && keeps(
                        search,
                        entries[i as int].paths[k as int].path,
                    ),
                }
            &&& (forall|j: int, k: int|
                0 <= j < k < shown.len() ==> #[trigger] shown[j] < #[trigger] shown[k]) ==> forall|
                a: int,
                b: int,
            |
                0 <= a < b < spots.len() ==> seen_before(#[trigger] spots[a], #[trigger] spots[b])
        }),
{
    let n = shown.len() as int;
    assert(shown.take(n) =~= shown);
    lemma_spots_found(entries, shown, search, n);
}

// ---------------------------------------------------------------- where the page stands

/// The record and the hit that the page stands at, and what it still has to scroll to.
pub struct Cursor {
    pub step: Option<i64>,
    pub spot: Option<usize>,
    pub jump: Option<usize>,
    pub focus_path: Option<usize>,
    pub picked: Option<usize>,
}

/// A picked record that the list no longer shows is let go.
pub open spec fn pruned(c: Cursor, shown: Seq<usize>) -> Cursor {
    match c.picked {
        Some(i) => if shown.contains(i) {
            c
        } else {
            Cursor { picked: None, spot: None, ..c }
        },
        None => c,
    }
}

/// The record of hit `at`.
pub open spec fn record_at(spots: Seq<Spot>, at: usize) -> Option<usize> {
    if at < spots.len() {
        Some(spots[at as int].record())
    } else {
        None
    }
}

/// A hit that no longer belongs to the picked record is let go.
pub open spec fn matched(c: Cursor, spots: Seq<Spot>) -> Cursor {
    match c.spot {
        Some(at) => if record_at(spots, at) == c.picked {
            c
        } else {
            Cursor { spot: None, ..c }
        },
        None => c,
    }
}

/// The step that is still to be taken is taken.
pub open spec fn walked(c: Cursor, spots: Seq<Spot>) -> Cursor {
    match c.step {
        None => c,
        Some(delta) => match stepped(spots.len() as int, c.spot, delta as int) {
            None => Cursor { step: None, ..c },
            Some(at) => match spots[at] {
                Spot::Row(i) => Cursor {
                    step: None,
                    spot: Some(at as usize),
                    jump: Some(i),
                    focus_path: None,
                    picked: Some(i),
                },
                Spot::Path(i, k) => Cursor {
                    step: None,
                    spot: Some(at as usize),
                    jump: c.jump,
                    focus_path: Some(k),
                    picked: Some(i),
                },
            },
        },
    }
}

/// Where the page stands once the list is known.
pub open spec fn settled(c: Cursor, shown: Seq<usize>, spots: Seq<Spot>) -> Cursor {
    walked(matched(pruned(c, shown), spots), spots)
}

impl HistoryPage {
    /// Where the page stands.
    pub open spec fn cursor(self) -> Cursor {
        Cursor {
            step: self.step,
            spot: self.spot,
            jump: self.jump,
            focus_path: self.focus_path,
            picked: self.picked,
        }
    }

    /// The page, standing at `c`.
    pub open spec fn standing(self, c: Cursor) -> HistoryPage {
        HistoryPage {
            step: c.step,
            spot: c.spot,
            jump: c.jump,
            focus_path: c.focus_path,
            picked: c.picked,
            ..self
        }
    }

    /// Brings the page in line with what `search` leaves in the list, and takes the step that is
    /// still to be taken. Returns the list and its hits.
    pub fn settle(&mut self, search: &Search) -> (r: (Vec<usize>, Vec<Spot>))
        requires
            crate::date::span_wf(old(self).range),
        ensures
            r.0@ == visible(log_views(old(self).entries@), old(self).range, search@),
            r.1@ == spots_among(
                log_views(old(self).entries@),
                r.0@,
                search@,
                r.0@.len() as int,
            ),
            *final(self) == old(self).standing(settled(old(self).cursor(), r.0@, r.1@)),
    {
        let shown = self.visible_with(search);
        let spots = spots_of(&self.entries, &shown, search);
        self.stand(&shown, &spots);
        (shown, spots)
    }

    fn stand(&mut self, shown: &Vec<usize>, spots: &Vec<Spot>)
        ensures
            *final(self) == old(self).standing(settled(old(self).cursor(), shown@, spots@)),
    {
        if let Some(i) = self.picked {
            if !lists(shown, i) {
                self.picked = None;
                self.spot = None;
            }
        }
        if let Some(at) = self.spot {
            let record = if at < spots.len() {
                Some(spots[at].entry())
            } else {
                None
            };
            if record != self.picked {
                self.spot = None;
            }
        }
        if let Some(delta) = self.step {
            self.step = None;
            if let Some(at) = step_spot(spots.len(), self.spot, delta) {
                self.spot = Some(at);
                match spots[at] {
                    Spot::Row(index) => {
                        self.picked = Some(index);
                        self.jump = Some(index);
                        self.focus_path = None;
                    },
                    Spot::Path(index, path) => {
                        self.picked = Some(index);
                        self.focus_path = Some(path);
                    },
                }
            }
        }
    }
}

/// Whether `list` holds `i`.
pub fn lists(list: &Vec<usize>, i: usize) -> (r: bool)
    ensures
        r == list@.contains(i),
{
    let mut k: usize = 0;
    while k < list.len()
        invariant
            k <= list.len(),
            forall|j: int| 0 <= j < k ==> #[trigger] list@[j] != i,
        decreases list.len() - k,
    {
        if list[k] == i {
            return true;
        }
        k += 1;
    }
    false
}

proof fn lemma_path_spots(search: SearchView, e: LogView, i: usize, n: int)
    ensures
        forall|j: int|
            0 <= j < path_spots(search, e, i, n).len() ==> (#[trigger] path_spots(
                search,
                e,
                i,
                n,
            )[j]).record() == i,
    decreases n,
{
    if n > 0 {
        lemma_path_spots(search, e, i, n - 1);
        let before = path_spots(search, e, i, n - 1);
        let all = path_spots(search, e, i, n);
        assert forall|j: int| 0 <= j < all.len() implies (#[trigger] all[j]).record() == i by {
            if j < before.len() {
                assert(all[j] == before[j]);
            }
        }
    }
}

proof fn lemma_spots_are_shown(
    entries: Seq<LogView>,
    shown: Seq<usize>,
    search: SearchView,
    n: int,
)
    requires
        n <= shown.len(),
    ensures
        forall|j: int|
            0 <= j < spots_among(entries, shown, search, n).len() ==> shown.contains(
                (#[trigger] spots_among(entries, shown, search, n)[j]).record(),
            ),
    decreases n,
{
    if n > 0 {
        lemma_spots_are_shown(entries, shown, search, n - 1);
        let i = shown[n - 1];
        let e = entries[i as int];
        lemma_path_spots(search, e, i, e.paths.len() as int);
        let before = spots_among(entries, shown, search, n - 1);
        let all = spots_among(entries, shown, search, n);
        let here = record_spots(search, e, i);
        assert forall|j: int| 0 <= j < all.len() implies shown.contains(
            (#[trigger] all[j]).record(),
        ) by {
            if j < before.len() {
                assert(all[j] == before[j]);
            } else {
                assert(all[j] == here[j - before.len()]);
                let paths = path_spots(search, e, i, e.paths.len() as int);
                let row = here.len() - paths.len();
                if j - before.len() >= row {
                    assert(here[j - before.len()] == paths[j - before.len() - row]);
                }
                assert(all[j].record() == i);
                assert(shown[n - 1] == i);
            }
        }
    }
}

/// The details never stand at a record that the list hides, and the hit that the page stands at
/// belongs to the record whose details are shown.
pub proof fn law_details_follow_the_list(
    c: Cursor,
    entries: Seq<LogView>,
    shown: Seq<usize>,
    search: SearchView,
)
    requires
        spots_among(entries, shown, search, shown.len() as int).len() <= usize::MAX,
    ensures
        ({
            let spots = spots_among(entries, shown, search, shown.len() as int);
            let after = settled(c, shown, spots);
            &&& after.step is None
            &&& after.picked matches Some(i) ==> shown.contains(i)
            &&& after.spot matches Some(at) ==> record_at(spots, at) == after.picked
        }),
{
    let spots = spots_among(entries, shown, search, shown.len() as int);
    lemma_spots_are_shown(entries, shown, search, shown.len() as int);
    let m = matched(pruned(c, shown), spots);
    if m.step is Some && spots.len() > 0 {
        let at = stepped(spots.len() as int, m.spot, m.step->0 as int)->0;
        assert(0 <= at < spots.len());
        assert(shown.contains(spots[at].record()));
    }
}

// ---------------------------------------------------------------- reading again

impl HistoryPage {
    /// Forgets what was read, to read it again.
    pub fn refresh(&mut self)
        ensures
            final(self).error@.len() == 0,
            final(self).entries@.len() == 0,
            *final(self) == (HistoryPage {
                error: final(self).error,
                entries: final(self).entries,
                ..*old(self)
            }),
    {
        self.error = String::new();
        self.entries = Vec::new();
    }

    /// Forgets what was read and what was picked, to read under new conditions.
    pub fn restart(&mut self)
        ensures
            final(self).error@.len() == 0,
            final(self).entries@.len() == 0,
            *final(self) == (HistoryPage {
                error: final(self).error,
                entries: final(self).entries,
                picked: None,
                ..*old(self)
            }),
    {
        self.error = String::new();
        self.entries = Vec::new();
        self.picked = None;
    }

    /// Goes back to reading by number. Returns whether to read again.
    pub fn pick_count(&mut self) -> (r: bool)
        ensures
            r == (old(self).preset is Some),
            !r ==> *final(self) == *old(self),
            r ==> final(self).range_error@.len() == 0 && *final(self) == (HistoryPage {
                preset: None,
                range: None,
                range_error: final(self).range_error,
                ..*old(self)
            }),
    {
        if self.preset.is_none() {
            return false;
        }
        self.preset = None;
        self.range = None;
        self.range_error = String::new();
        true
    }

    /// Lights a preset and takes over its range. A range of one's own is read only when it is
    /// asked for, once its dates are typed. Returns whether to read again.
    pub fn pick_preset(&mut self, preset: RangePreset, today: Date) -> (r: bool)
        requires
            today.wf(),
            today.number() - 364 >= crate::date::first_number(),
        ensures
            preset == RangePreset::Custom ==> !r && *final(self) == (HistoryPage {
                preset: Some(preset),
                ..*old(self)
            }),
            preset != RangePreset::Custom ==> match stats::range_for(
                preset,
                old(self).custom_from@,
                old(self).custom_to@,
                today,
            ) {
                Ok(span) => r && final(self).range_error@.len() == 0 && *final(self) == (
                HistoryPage {
                    preset: Some(preset),
                    range: span,
                    range_error: final(self).range_error,
                    ..*old(self)
                }),
                Err(e) => !r && final(self).range_error@ == e && *final(self) == (HistoryPage {
                    range_error: final(self).range_error,
                    ..*old(self)
                }),
            },
            crate::date::span_wf(old(self).range) ==> crate::date::span_wf(final(self).range),
    {
        if preset == RangePreset::Custom {
            self.preset = Some(preset);
            return false;
        }
        match stats::resolve_range(
            preset,
            self.custom_from.as_str(),
            self.custom_to.as_str(),
            today,
        ) {
            Ok(span) => {
                self.preset = Some(preset);
                self.range = span;
                self.range_error = String::new();
                true
            },
            Err(message) => {
                self.range_error = message;
                false
            },
        }
    }

    /// Takes over the range between the typed dates. Returns whether to read again.
    pub fn query(&mut self, today: Date) -> (r: bool)
        requires
            today.wf(),
            today.number() - 364 >= crate::date::first_number(),
        ensures
            match stats::range_for(
                RangePreset::Custom,
                old(self).custom_from@,
                old(self).custom_to@,
                today,
            ) {
                Ok(span) => r && final(self).range_error@.len() == 0 && *final(self) == (
                HistoryPage { range: span, range_error: final(self).range_error, ..*old(self) }),
                Err(e) => !r && final(self).range_error@ == e && *final(self) == (HistoryPage {
                    range_error: final(self).range_error,
                    ..*old(self)
                }),
            },
            crate::date::span_wf(old(self).range) ==> crate::date::span_wf(final(self).range),
    {
        match stats::resolve_range(
            RangePreset::Custom,
            self.custom_from.as_str(),
            self.custom_to.as_str(),
            today,
        ) {
            Ok(span) => {
                self.range = span;
                self.range_error = String::new();
                true
            },
            Err(message) => {
                self.range_error = message;
                false
            },
        }
    }
}

// ---------------------------------------------------------------- what the page says

/// How many of how many hits, said behind the number of records.
pub open spec fn progress_text(spot: Option<usize>, spots: int) -> Seq<char> {
    if spots <= 1 {
        Seq::empty()
    } else {
        match spot {
            Some(at) => " · 第 "@ + text::decimal(at + 1) + "/"@ + text::decimal(spots)
                + " 处命中"@,
            None => " · "@ + text::decimal(spots) + " 处命中"@,
        }
    }
}

/// The line above the list, with `shown` records in it and `spots` hits.
pub open spec fn summary_text(page: HistoryPage, shown: int, spots: int, loading: bool) -> Seq<
    char,
> {
    if shown > 0 {
        text::decimal(shown) + " 条记录"@ + if page.mine {
            "（"@ + page.author@ + "）"@
        } else {
            Seq::empty()
        } + progress_text(page.spot, spots)
    } else if page.entries@.len() > 0 {
        "过滤后没有匹配记录"@
    } else if loading || page.error@.len() > 0 {
        Seq::empty()
    } else if !page.mine {
        "没有取到提交记录"@
    } else if page.unlimited {
        "服务器上没有 "@ + page.author@ + " 的提交，可关掉「只看 "@ + page.author@
            + "」看看别人的"@
    } else {
        "服务器最近 "@ + text::signed(page.limit as int) + " 条记录里没有 "@ + page.author@
            + " 的提交，可增大条数、勾「不限」或关掉「只看 "@ + page.author@ + "」"@
    }
}

/// The server is ahead of the working copy, as far as both revisions are numbers.
pub open spec fn is_behind(local: Seq<char>, server: Seq<char>) -> bool {
    match (text::integer_in(local), text::integer_in(server)) {
        (Some(l), Some(s)) => i64::MIN <= l <= i64::MAX && i64::MIN <= s <= i64::MAX && s > l,
        _ => false,
    }
}

/// Whether the server is ahead of the working copy.
pub fn behind(local: &str, server: &str) -> (r: bool)
    ensures
        r == is_behind(local@, server@),
{
    match (
        text::parse_integer(local, i64::MIN, i64::MAX),
        text::parse_integer(server, i64::MIN, i64::MAX),
    ) {
        (Some(l), Some(s)) => s > l,
        _ => false,
    }
}

/// Where the records come from, said beside the switch.
pub open spec fn source_text(local: Seq<char>, server: Seq<char>) -> Seq<char> {
    if server.len() == 0 {
        "记录取自服务器 HEAD"@
    } else {
        "记录取自服务器（最新 r"@ + server + "，本地 r"@ + local + "）"@ + if is_behind(
            local,
            server,
        ) {
            " · 本地待更新"@
        } else {
            Seq::empty()
        }
    }
}

/// Where the records come from, said beside the switch.
pub fn source_line(local: &str, server: &str) -> (r: String)
    ensures
        r@ == source_text(local@, server@),
{
    if server.is_empty() {
        return "记录取自服务器 HEAD".to_owned();
    }
    let mut t = text::join3("记录取自服务器（最新 r", server, "，本地 r");
    t.append(local);
    t.append("）");
    if behind(local, server) {
        t.append(" · 本地待更新");
    }
    assert(source_text(local@, server@) =~= t@);
    t
}

/// The first line of a message as the list shows it.
pub open spec fn first_line(message: Seq<char>) -> Seq<char> {
    if text::lines(message).len() > 0 {
        text::lines(message)[0]
    } else {
        "(无提交说明)"@
    }
}

/// The first line of a message as the list shows it.
pub fn headline(message: &str) -> (r: String)
    ensures
        r@ == first_line(message@),
{
    let lines = text::lines_of(message);
    assert(text::views(lines@).len() == lines@.len());
    if lines.len() > 0 {
        assert(text::views(lines@)[0] == lines@[0]@);
        lines[0].clone()
    } else {
        "(无提交说明)".to_owned()
    }
}

impl HistoryPage {
    /// The line above the list.
    pub fn summary(&self, shown: usize, spots: usize, loading: bool) -> (r: String)
        requires
            self.spot matches Some(at) ==> at < usize::MAX,
        ensures
            r@ == summary_text(*self, shown as int, spots as int, loading),
    {
        if shown > 0 {
            let n = text::count(shown);
            let mut t = text::join2(n.as_str(), " 条记录");
            if self.mine {
                let who = text::join3("（", self.author.as_str(), "）");
                t.append(who.as_str());
            }
            let mut p = String::new();
            if spots > 1 {
                let all = text::count(spots);
                match self.spot {
                    Some(at) => {
                        let here = text::count(at + 1);
                        p = text::join3(" · 第 ", here.as_str(), "/");
                        p.append(all.as_str());
                        p.append(" 处命中");
                    },
                    None => {
                        p = text::join3(" · ", all.as_str(), " 处命中");
                    },
                }
            }
            assert(p@ =~= progress_text(self.spot, spots as int));
            t.append(p.as_str());
            assert(t@ =~= summary_text(*self, shown as int, spots as int, loading));
            return t;
        }
        if self.entries.len() > 0 {
            return "过滤后没有匹配记录".to_owned();
        }
        if loading || !self.error.as_str().is_empty() {
            return String::new();
        }
        if !self.mine {
            return "没有取到提交记录".to_owned();
        }
        let who = self.author.as_str();
        if self.unlimited {
            let mut t = text::join3("服务器上没有 ", who, " 的提交，可关掉「只看 ");
            t.append(who);
            t.append("」看看别人的");
            t
        } else {
            let n = text::integer(self.limit);
            let mut t = text::join3("服务器最近 ", n.as_str(), " 条记录里没有 ");
            t.append(who);
            t.append(" 的提交，可增大条数、勾「不限」或关掉「只看 ");
            t.append(who);
            t.append("」");
            t
        }
    }

    /// The label of the switch that asks for the commits of one author.
    pub fn mine_text(&self) -> (r: String)
        ensures
            r@ == (if text::trim(self.author@).len() == 0 {
                "只看我的提交"@
            } else {
                "只看 "@ + self.author@ + " 的提交"@
            }),
    {
        if text::blank(self.author.as_str()) {
            "只看我的提交".to_owned()
        } else {
            text::join3("只看 ", self.author.as_str(), " 的提交")
        }
    }

    /// The label beside the number of records.
    pub fn limit_label(&self) -> (r: &'static str)
        ensures
            r@ == (if self.range is None {
                "条数"@
            } else {
                "条数（区间内不限）"@
            }),
    {
        if self.range.is_none() {
            "条数"
        } else {
            "条数（区间内不限）"
        }
    }

    /// The range that is read, in words.
    pub fn range_label(&self) -> (r: Option<String>)
        requires
            crate::date::span_wf(self.range),
        ensures
            match self.range {
                Some(s) => r matches Some(t) && t@ == "读 "@ + crate::date::date_text(s.0) + " ~ "@
                    + crate::date::date_text(s.1) + " 的提交"@,
                None => r is None,
            },
    {
        match self.range {
            Some((from, to)) => {
                let a = from.to_text();
                let b = to.to_text();
                let mut t = text::join3("读 ", a.as_str(), " ~ ");
                t.append(b.as_str());
                t.append(" 的提交");
                Some(t)
            },
            None => None,
        }
    }

    /// Whether there is anything to step through.
    pub fn can_step(&self) -> (r: bool)
        ensures
            r == (text::trim(self.filter@).len() > 0 && self.entries@.len() > 0),
    {
        !text::blank(self.filter.as_str()) && self.entries.len() > 0
    }

    /// Whether a record is one of one's own.
    pub fn owns(&self, e: &LogEntry) -> (r: bool)
        ensures
            r == (text::trim(self.author@).len() > 0 && e.author@ == self.author@),
    {
        !text::blank(self.author.as_str()) && text::same(e.author.as_str(), self.author.as_str())
    }
}

// ---------------------------------------------------------------- records for a work log

/// A commit that is picked for a work log, with the directory that it was found in.
#[derive(Debug)]
pub struct AiPick {
    pub dir: usize,
    pub dir_label: String,
    pub entry: LogEntry,
}

/// The view of an `AiPick`.
pub struct PickView {
    pub dir: usize,
    pub dir_label: Seq<char>,
    pub entry: LogView,
}

impl View for AiPick {
    type V = PickView;

    open spec fn view(&self) -> PickView {
        PickView { dir: self.dir, dir_label: self.dir_label@, entry: self.entry@ }
    }
}

/// The views of picks.
pub open spec fn pick_views(v: Seq<AiPick>) -> Seq<PickView> {
    Seq::new(v.len(), |i: int| v[i]@)
}

/// The pick is revision `rev` of directory `dir`.
pub open spec fn is_pick(p: PickView, dir: usize, rev: Seq<char>) -> bool {
    p.dir == dir && p.entry.revision == rev
}

/// Revision `rev` of directory `dir` is among the picks.
pub open spec fn has_pick(picks: Seq<PickView>, dir: usize, rev: Seq<char>) -> bool {
    exists|i: int| 0 <= i < picks.len() && is_pick(#[trigger] picks[i], dir, rev)
}

/// The picks without revision `rev` of directory `dir`.
pub open spec fn without_pick(picks: Seq<PickView>, dir: usize, rev: Seq<char>, n: int) -> Seq<
    PickView,
>
    decreases n,
{
    if n <= 0 {
        Seq::empty()
    } else {
        let before = without_pick(picks, dir, rev, n - 1);
        if is_pick(picks[n - 1], dir, rev) {
            before
        } else {
            before.push(picks[n - 1])
        }
    }
}

/// Whether revision `rev` of directory `dir` is picked.
pub fn is_picked(picks: &Vec<AiPick>, dir: usize, rev: &str) -> (r: bool)
    ensures
        r == has_pick(pick_views(picks@), dir, rev@),
{
    let ghost pv = pick_views(picks@);
    let mut i: usize = 0;
    while i < picks.len()
        invariant
            i <= picks.len(),
            pv == pick_views(picks@),
            forall|j: int| 0 <= j < i ==> !is_pick(#[trigger] pv[j], dir, rev@),
        decreases picks.len() - i,
    {
        assert(pv[i as int] == picks@[i as int]@);
        if picks[i].dir == dir && text::same(picks[i].entry.revision.as_str(), rev) {
            return true;
        }
        i += 1;
    }
    false
}

/// Picks a commit for the work log, behind the others.
pub fn add_pick(picks: &mut Vec<AiPick>, dir: usize, label: &str, entry: &LogEntry)
    ensures
        pick_views(final(picks)@) == pick_views(old(picks)@).push(
            PickView { dir, dir_label: label@, entry: entry@ },
        ),
{
    let ghost before = picks@;
    picks.push(AiPick { dir, dir_label: label.to_owned(), entry: entry.clone() });
    assert(pick_views(picks@) =~= pick_views(before).push(picks@.last()@));
}

/// Takes a commit out of the work log.
pub fn drop_pick(picks: &Vec<AiPick>, dir: usize, rev: &str) -> (r: Vec<AiPick>)
    ensures
        pick_views(r@) == without_pick(pick_views(picks@), dir, rev@, picks@.len() as int),
{
    let ghost pv = pick_views(picks@);
    let mut out: Vec<AiPick> = Vec::new();
    let mut i: usize = 0;
    assert(pick_views(out@) =~= Seq::empty());
    while i < picks.len()
        invariant
            i <= picks.len(),
            pv == pick_views(picks@),
            pick_views(out@) == without_pick(pv, dir, rev@, i as int),
        decreases picks.len() - i,
    {
        assert(pv[i as int] == picks@[i as int]@);
        if !(picks[i].dir == dir && text::same(picks[i].entry.revision.as_str(), rev)) {
            let ghost before = out@;
            let p = AiPick {
                dir: picks[i].dir,
                dir_label: picks[i].dir_label.clone(),
                entry: picks[i].entry.clone(),
            };
            out.push(p);
            assert(pick_views(out@) =~= pick_views(before).push(p@));
        }
        i += 1;
    }
    out
}

/// What was not picked, and is picked and then taken out again, leaves the picks as they were.
pub proof fn law_pick_and_drop(picks: Seq<PickView>, p: PickView)
    requires
        !has_pick(picks, p.dir, p.entry.revision),
    ensures
        without_pick(picks.push(p), p.dir, p.entry.revision, picks.len() as int + 1) == picks,
{
    lemma_without_none(picks.push(p), p.dir, p.entry.revision, picks.len() as int);
    assert(picks.push(p).take(picks.len() as int) =~= picks);
}

proof fn lemma_without_none(picks: Seq<PickView>, dir: usize, rev: Seq<char>, n: int)
    requires
        0 <= n <= picks.len(),
        !has_pick(picks.take(n), dir, rev),
    ensures
        without_pick(picks, dir, rev, n) == picks.take(n),
    decreases n,
{
    if n > 0 {
        assert(picks.take(n)[n - 1] == picks[n - 1]);
        assert forall|i: int| 0 <= i < n - 1 implies !is_pick(
            #[trigger] picks.take(n - 1)[i],
            dir,
            rev,
        ) by {
            assert(picks.take(n)[i] == picks.take(n - 1)[i]);
        }
        lemma_without_none(picks, dir, rev, n - 1);
        assert(picks.take(n) =~= picks.take(n - 1).push(picks[n - 1]));
    } else {
        assert(picks.take(0) =~= Seq::empty());
    }
}

// ---------------------------------------------------------------- laws of what the page says

/// The server is ahead where its revision is the greater number, and never where one of the two is
/// no number.
pub proof fn law_greater_revisions_are_ahead(local: int, server: int, text: Seq<char>)
    requires
        i64::MIN <= local <= i64::MAX,
        i64::MIN <= server <= i64::MAX,
    ensures
        is_behind(text::signed(local), text::signed(server)) <==> server > local,
        text::integer_in(text) is None ==> !is_behind(text, text::signed(server)) && !is_behind(
            text::signed(local),
            text,
        ),
{
    text::law_numbers_read_back(local);
    text::law_numbers_read_back(server);
}

/// The list shows the first line of a message, and says so where there is none.
pub proof fn law_messages_show_their_first_line(line: Seq<char>, rest: Seq<char>)
    requires
        !line.contains('\n'),
        line.len() > 0 && line.last() != '\r',
    ensures
        first_line(line + seq!['\n'] + rest) == line,
        first_line(line) == line,
        first_line(Seq::empty()) == "(无提交说明)"@,
{
    let s = line + seq!['\n'] + rest;
    let n = line.len() as int;
    assert forall|j: int| 0 <= j < n implies #[trigger] s[j] != '\n' && line[j] != '\n' by {
        assert(s[j] == line[j]);
        assert(line.contains(line[j]));
    }
    assert(s[n] == '\n');
    text::lemma_index_of_is(s, '\n', n);
    text::lemma_index_of_is(line, '\n', n);
    assert(s.subrange(0, n) =~= line);
}

/// A pick that is dropped leaves all others, in their order.
pub proof fn law_dropping_leaves_the_other_picks(
    picks: Seq<PickView>,
    dir: usize,
    rev: Seq<char>,
    n: int,
)
    requires
        0 <= n <= picks.len(),
    ensures
        without_pick(picks, dir, rev, n) == picks.take(n).filter(
            |p: PickView| !is_pick(p, dir, rev),
        ),
    decreases n,
{
    reveal(Seq::filter);
    if n > 0 {
        law_dropping_leaves_the_other_picks(picks, dir, rev, n - 1);
        assert(picks.take(n).drop_last() =~= picks.take(n - 1));
        assert(picks.take(n).last() == picks[n - 1]);
    }
}

/// A step leads to a hit: the record of the hit is picked, and either the list scrolls to it or the
/// details scroll to its path. Without hits nothing moves. What is picked and still listed stays
/// picked while no step is taken.
pub proof fn law_steps_lead_to_hits(c: Cursor, shown: Seq<usize>, spots: Seq<Spot>)
    requires
        spots.len() <= usize::MAX,
    ensures
        ({
            let after = settled(c, shown, spots);
            &&& c.step is Some && spots.len() > 0 ==> (after.spot matches Some(at) && at
                < spots.len() && match spots[at as int] {
                Spot::Row(i) => after.picked == Some(i) && after.jump == Some(i)
                    && after.focus_path is None,
                Spot::Path(i, k) => after.picked == Some(i) && after.focus_path == Some(k)
                    && after.jump == c.jump,
            })
            &&& c.step is None || spots.len() == 0 ==> after.jump == c.jump && after.focus_path
                == c.focus_path && after.picked == match c.picked {
                Some(i) => if shown.contains(i) {
                    Some(i)
                } else {
                    None
                },
                None => None,
            }
        }),
{
    let m = matched(pruned(c, shown), spots);
    if m.step is Some && spots.len() > 0 {
        let at = stepped(spots.len() as int, m.spot, m.step->0 as int)->0;
        assert(0 <= at < spots.len());
    }
}

/// The line above the list tells how many records are shown, whose they are where only the own ones
/// are, and which of the hits is reached where there are more than one.
pub proof fn law_records_shown_are_told(page: HistoryPage, shown: int, spots: int, loading: bool)
    ensures
        shown > 0 ==> text::begins(
            summary_text(page, shown, spots, loading),
            text::decimal(shown),
        ),
        shown > 0 && page.mine ==> text::occurs(
            summary_text(page, shown, spots, loading),
            page.author@,
        ),
        shown > 0 && spots > 1 ==> text::occurs(
            summary_text(page, shown, spots, loading),
            text::decimal(spots),
        ),
        shown > 0 && spots > 1 ==> (page.spot matches Some(at) ==> text::occurs(
            summary_text(page, shown, spots, loading),
            text::decimal(at + 1) + seq!['/'] + text::decimal(spots),
        )),
        spots <= 1 ==> progress_text(page.spot, spots).len() == 0,
{
    reveal_strlit("/");
    assert("/"@ =~= seq!['/']);
    if shown > 0 {
        let t = summary_text(page, shown, spots, loading);
        let n = text::decimal(shown);
        let whose = if page.mine {
            "（"@ + page.author@ + "）"@
        } else {
            Seq::empty()
        };
        let reached = progress_text(page.spot, spots);
        let front = n + " 条记录"@ + whose;
        assert(t =~= front + reached);
        assert(t.subrange(0, n.len() as int) =~= n);
        if page.mine {
            text::lemma_occurs_between(n + " 条记录"@ + "（"@, page.author@, "）"@ + reached);
            assert(t =~= n + " 条记录"@ + "（"@ + page.author@ + ("）"@ + reached));
        }
        if spots > 1 {
            let k = text::decimal(spots);
            match page.spot {
                Some(at) => {
                    let i = text::decimal(at + 1);
                    let of = i + seq!['/'] + k;
                    text::lemma_occurs_between(front + " · 第 "@, of, " 处命中"@);
                    assert(t =~= front + " · 第 "@ + of + " 处命中"@);
                    text::lemma_occurs_between(front + " · 第 "@ + i + "/"@, k, " 处命中"@);
                    assert(t =~= front + " · 第 "@ + i + "/"@ + k + " 处命中"@);
                },
                None => {
                    text::lemma_occurs_between(front + " · "@, k, " 处命中"@);
                    assert(t =~= front + " · "@ + k + " 处命中"@);
                },
            }
        }
    }
}

} // verus!

