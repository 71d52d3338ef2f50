//! Differences as Subversion writes them, set side by side.

use vstd::prelude::*;

use crate::text;

verus! {

// ---------------------------------------------------------------- tones of lines

/// How a line of a difference is coloured.
#[derive(Clone, Copy, Debug, PartialEq, Eq, Structural)]
pub enum Tone {
    Added,
    Removed,
    Header,
    Plain,
}

/// The line was added.
pub open spec fn is_added(line: Seq<char>) -> bool {
    text::begins(line, "+"@) && !text::begins(line, "+++"@)
}

/// The line was removed.
pub open spec fn is_removed(line: Seq<char>) -> bool {
    text::begins(line, "-"@) && !text::begins(line, "---"@)
}

/// How a line of a difference is coloured.
pub open spec fn tone(line: Seq<char>) -> Tone {
    if is_added(line) {
        Tone::Added
    } else if is_removed(line) {
        Tone::Removed
    } else if text::begins(line, "@@"@) || text::begins(line, "Index:"@) {
        Tone::Header
    } else {
        Tone::Plain
    }
}

fn added(line: &str) -> (r: bool)
    ensures
        r == is_added(line@),
{
    text::has_prefix(line, "+") && !text::has_prefix(line, "+++")
}

fn removed(line: &str) -> (r: bool)
    ensures
        r == is_removed(line@),
{
    text::has_prefix(line, "-") && !text::has_prefix(line, "---")
}

/// How a line of a difference is coloured.
pub fn line_tone(line: &str) -> (r: Tone)
    ensures
        r == tone(line@),
{
    if added(line) {
        Tone::Added
    } else if removed(line) {
        Tone::Removed
    } else if text::has_prefix(line, "@@") || text::has_prefix(line, "Index:") {
        Tone::Header
    } else {
        Tone::Plain
    }
}

// ---------------------------------------------------------------- rows

/// Where the two sides of a row come from.
#[derive(Clone, Copy, Debug, PartialEq, Eq, Structural)]
pub enum PairKind {
    Context,
    Removed,
    Added,
    Changed,
}

/// A row of two sides, or a line across both. A line number of 0 means that the side has no such
/// line; the flag of a `Span` marks the head of a block of changes.
#[derive(Debug)]
pub enum DiffRow {
    Span(String, bool),
    Pair { left: String, left_no: i64, right: String, right_no: i64, kind: PairKind },
}

/// The view of a `DiffRow`.
pub enum RowView {
    Span(Seq<char>, bool),
    Pair { left: Seq<char>, left_no: i64, right: Seq<char>, right_no: i64, kind: PairKind },
}

impl View for DiffRow {
    type V = RowView;

    open spec fn view(&self) -> RowView {
        match *self {
            DiffRow::Span(line, head) => RowView::Span(line@, head),
            DiffRow::Pair { left, left_no, right, right_no, kind } => RowView::Pair {
                left: left@,
                left_no,
                right: right@,
                right_no,
                kind,
            },
        }
    }
}

/// The views of the rows in `v`.
pub open spec fn row_views(v: Seq<DiffRow>) -> Seq<RowView> {
    Seq::new(v.len(), |i: int| v[i]@)
}

/// The views of numbered lines.
pub open spec fn numbered_views(v: Seq<(i64, String)>) -> Seq<(i64, Seq<char>)> {
    Seq::new(v.len(), |i: int| (v[i].0, v[i].1@))
}

/// The row that the `i`th removed and the `i`th added line of a block make.
pub open spec fn pair_at(
    dels: Seq<(i64, Seq<char>)>,
    adds: Seq<(i64, Seq<char>)>,
    i: int,
) -> RowView {
    RowView::Pair {
        left: if i < dels.len() {
            dels[i].1
        } else {
            Seq::empty()
        },
        left_no: if i < dels.len() {
            dels[i].0
        } else {
            0
        },
        right: if i < adds.len() {
            adds[i].1
        } else {
            Seq::empty()
        },
        right_no: if i < adds.len() {
            adds[i].0
        } else {
            0
        },
        kind: if i < dels.len() && i < adds.len() {
            PairKind::Changed
        } else if i < dels.len() {
            PairKind::Removed
        } else {
            PairKind::Added
        },
    }
}

/// The rows of a block: removed and added lines side by side, in order, the longer side going on
/// alone.
pub open spec fn paired(dels: Seq<(i64, Seq<char>)>, adds: Seq<(i64, Seq<char>)>) -> Seq<RowView> {
    Seq::new(
        if dels.len() > adds.len() {
            dels.len()
        } else {
            adds.len()
        },
        |i: int| pair_at(dels, adds, i),
    )
}

/// The line number in a word of a block's head: what stands between the sign and the comma.
pub open spec fn line_number(word: Seq<char>, sign: char) -> i64 {
    match text::integer_in(text::up_to(text::strip_start(word, sign, sign), ',')) {
        Some(n) => if i64::MIN <= n <= i64::MAX {
            n as i64
        } else {
            0
        },
        None => 0,
    }
}

/// The line is about the file, not a part of it.
pub open spec fn is_note(line: Seq<char>) -> bool {
    text::begins(line, "Index:"@) || text::begins(line, "===="@) || text::begins(line, "---"@)
        || text::begins(line, "+++"@) || text::begins(line, "Propchange:"@) || text::begins(
        line,
        "\\"@,
    )
}

/// A line of the file without the space that marks it as unchanged.
pub open spec fn body(line: Seq<char>) -> Seq<char> {
    if text::begins(line, " "@) {
        text::after(line, " "@.len() as int)
    } else {
        line
    }
}

/// How far the rows have come.
pub struct Progress {
    pub rows: Seq<RowView>,
    pub old_line: i64,
    pub new_line: i64,
    pub dels: Seq<(i64, Seq<char>)>,
    pub adds: Seq<(i64, Seq<char>)>,
    pub done: bool,
}

/// What a line that is neither added nor removed adds, once the block before it is closed.
pub open spec fn after_block(p: Progress, line: Seq<char>) -> Progress {
    if text::begins(line, "@@ "@) {
        let head = text::after(line, "@@ "@.len() as int);
        Progress {
            rows: p.rows.push(RowView::Span(line, true)),
            old_line: line_number(text::first_word(head), '-'),
            new_line: line_number(text::first_word(text::after_word(head)), '+'),
            ..p
        }
    } else if is_note(line) {
        Progress { rows: p.rows.push(RowView::Span(line, false)), ..p }
    } else {
        Progress {
            rows: p.rows.push(
                RowView::Pair {
                    left: body(line),
                    left_no: p.old_line,
                    right: body(line),
                    right_no: p.new_line,
                    kind: PairKind::Context,
                },
            ),
            old_line: p.old_line.wrapping_add(1),
            new_line: p.new_line.wrapping_add(1),
            ..p
        }
    }
}

/// The rows stop once there are more than two thousand. That is asked only between blocks of
/// removed and added lines: a long block is shown whole, and one that ends the difference brings no
/// notice.
pub open spec fn limited(p: Progress) -> Progress {
    if !p.done && p.rows.len() > 2000 {
        Progress {
            rows: p.rows.push(RowView::Span("差异过长，只展开前 2000 行"@, false)),
            done: true,
            ..p
        }
    } else {
        p
    }
}

/// How far the rows have come after one more line.
pub open spec fn advanced(p: Progress, line: Seq<char>) -> Progress {
    if p.done {
        p
    } else if is_removed(line) {
        Progress {
            dels: p.dels.push((p.old_line, text::after(line, 1))),
            old_line: p.old_line.wrapping_add(1),
            ..p
        }
    } else if is_added(line) {
        Progress {
            adds: p.adds.push((p.new_line, text::after(line, 1))),
            new_line: p.new_line.wrapping_add(1),
            ..p
        }
    } else {
        let closed = Progress {
            rows: p.rows + paired(p.dels, p.adds),
            dels: Seq::empty(),
            adds: Seq::empty(),
            ..p
        };
        limited(after_block(closed, line))
    }
}

/// Nothing read yet.
pub open spec fn fresh() -> Progress {
    Progress {
        rows: Seq::empty(),
        old_line: 0,
        new_line: 0,
        dels: Seq::empty(),
        adds: Seq::empty(),
        done: false,
    }
}

/// How far the rows have come after the first `n` lines.
pub open spec fn progress(lines: Seq<Seq<char>>, n: int) -> Progress
    decreases n,
{
    if n <= 0 {
        fresh()
    } else {
        advanced(progress(lines, n - 1), lines[n - 1])
    }
}

/// The rows of a difference: those of its lines, and those of the block that is open at its end.
pub open spec fn rows_of(diff: Seq<char>) -> Seq<RowView> {
    let lines = text::lines(diff);
    let p = progress(lines, lines.len() as int);
    p.rows + paired(p.dels, p.adds)
}

fn number_in(word: &str, sign: char) -> (r: i64)
    ensures
        r == line_number(word@, sign),
{
    let bare = text::stripped_start(word, sign, sign);
    let digits = text::before_char(bare.as_str(), ',');
    match text::parse_integer(digits.as_str(), i64::MIN, i64::MAX) {
        Some(n) => n,
        None => 0,
    }
}

fn note(line: &str) -> (r: bool)
    ensures
        r == is_note(line@),
{
    text::has_prefix(line, "Index:") || text::has_prefix(line, "====") || text::has_prefix(
        line,
        "---",
    ) || text::has_prefix(line, "+++") || text::has_prefix(line, "Propchange:")
        || text::has_prefix(line, "\\")
}

fn body_of(line: &str) -> (r: String)
    ensures
        r@ == body(line@),
{
    match text::without_prefix(line, " ") {
        Some(rest) => rest,
        None => line.to_owned(),
    }
}

fn rest_of(line: &str) -> (r: String)
    requires
        line@.len() > 0,
    ensures
        r@ == text::after(line@, 1),
{
    let s = text::chars_of(line);
    text::string_from(&s, 1, s.len())
}

/// Adds the rows of a block.
fn close_block(
    rows: &mut Vec<DiffRow>,
    dels: &Vec<(i64, String)>,
    adds: &Vec<(i64, String)>,
)
    ensures
        row_views(final(rows)@) == row_views(old(rows)@) + paired(
            numbered_views(dels@),
            numbered_views(adds@),
        ),
{
    let ghost start = row_views(rows@);
    let ghost dv = numbered_views(dels@);
    let ghost av = numbered_views(adds@);
    let n = if dels.len() > adds.len() {
        dels.len()
    } else {
        adds.len()
    };
    let mut i: usize = 0;
    assert(start + paired(dv, av).take(0) =~= start);
    while i < n
        invariant
            i <= n,
            n == paired(dv, av).len(),
            dv == numbered_views(dels@),
            av == numbered_views(adds@),
            row_views(rows@) == start + paired(dv, av).take(i as int),
        decreases n - i,
    {
        let (left, left_no) = if i < dels.len() {
            (dels[i].1.clone(), dels[i].0)
        } else {
            (String::new(), 0)
        };
        let (right, right_no) = if i < adds.len() {
            (adds[i].1.clone(), adds[i].0)
        } else {
            (String::new(), 0)
        };
        let kind = if i < dels.len() && i < adds.len() {
            PairKind::Changed
        } else if i < dels.len() {
            PairKind::Removed
        } else {
            PairKind::Added
        };
        let row = DiffRow::Pair { left, left_no, right, right_no, kind };
        let ghost before = rows@;
        proof {
            let want = pair_at(dv, av, i as int);
            assert(i < dels@.len() ==> dv[i as int] == (dels@[i as int].0, dels@[i as int].1@));
            assert(i < adds@.len() ==> av[i as int] == (adds@[i as int].0, adds@[i as int].1@));
            assert(left@ =~= want->left);
            assert(right@ =~= want->right);
        }
        rows.push(row);
        assert(row_views(rows@) =~= row_views(before).push(row@));
        assert(paired(dv, av).take(i + 1) =~= paired(dv, av).take(i as int).push(row@));
        assert(start + paired(dv, av).take(i + 1) =~= (start + paired(dv, av).take(i as int)).push(
            row@,
        ));
        i += 1;
    }
    assert(paired(dv, av).take(i as int) =~= paired(dv, av));
}

/// The rows of a difference: what was removed on the left, what was added on the right, changed
/// lines side by side.
pub fn diff_rows(diff: &str) -> (r: Vec<DiffRow>)
    ensures
        row_views(r@) == rows_of(diff@),
{
    let lines = text::lines_of(diff);
    let ghost lv = text::lines(diff@);
    let mut rows: Vec<DiffRow> = Vec::new();
    let mut old_line: i64 = 0;
    let mut new_line: i64 = 0;
    let mut dels: Vec<(i64, String)> = Vec::new();
    let mut adds: Vec<(i64, String)> = Vec::new();
    let mut done: bool = false;
    let mut i: usize = 0;
    assert(row_views(rows@) =~= Seq::empty());
    assert(numbered_views(dels@) =~= Seq::empty());
    assert(numbered_views(adds@) =~= Seq::empty());
    while i < lines.len()
        invariant
            i <= lines.len(),
            lv == text::views(lines@),
            progress(lv, i as int) == (Progress {
                rows: row_views(rows@),
                old_line,
                new_line,
                dels: numbered_views(dels@),
                adds: numbered_views(adds@),
                done,
            }),
        decreases lines.len() - i,
    {
        let line = lines[i].as_str();
        let ghost p = progress(lv, i as int);
        let ghost before = rows@;
        assert(lv[i as int] == line@);
        proof {
            reveal_strlit("-");
            reveal_strlit("+");
        }
        if done {
        } else if removed(line) {
            let ghost d = dels@;
            let rest = rest_of(line);
            dels.push((old_line, rest));
            assert(numbered_views(dels@) =~= numbered_views(d).push((old_line, rest@)));
            old_line = old_line.wrapping_add(1);
        } else if added(line) {
            let ghost a = adds@;
            let rest = rest_of(line);
            adds.push((new_line, rest));
            assert(numbered_views(adds@) =~= numbered_views(a).push((new_line, rest@)));
            new_line = new_line.wrapping_add(1);
        } else {
            close_block(&mut rows, &dels, &adds);
            dels = Vec::new();
            adds = Vec::new();
            assert(numbered_views(dels@) =~= Seq::empty());
            assert(numbered_views(adds@) =~= Seq::empty());
            let ghost closed = rows@;
            if text::has_prefix(line, "@@ ") {
                let head = match text::without_prefix(line, "@@ ") {
                    Some(h) => h,
                    None => String::new(),
                };
                let (first, rest) = text::split_word(head.as_str());
                let (second, _) = text::split_word(rest.as_str());
                old_line = number_in(first.as_str(), '-');
                new_line = number_in(second.as_str(), '+');
                let row = DiffRow::Span(line.to_owned(), true);
                rows.push(row);
                assert(row_views(rows@) =~= row_views(closed).push(row@));
            } else if note(line) {
                let row = DiffRow::Span(line.to_owned(), false);
                rows.push(row);
                assert(row_views(rows@) =~= row_views(closed).push(row@));
            } else {
                let row = DiffRow::Pair {
                    left: body_of(line),
                    left_no: old_line,
                    right: body_of(line),
                    right_no: new_line,
                    kind: PairKind::Context,
                };
                rows.push(row);
                assert(row_views(rows@) =~= row_views(closed).push(row@));
                old_line = old_line.wrapping_add(1);
                new_line = new_line.wrapping_add(1);
            }
            let ghost full = rows@;
            if rows.len() > 2000 {
                let row = DiffRow::Span("差异过长，只展开前 2000 行".to_owned(), false);
                rows.push(row);
                assert(row_views(rows@) =~= row_views(full).push(row@));
                done = true;
            }
        }
        i += 1;
    }
    close_block(&mut rows, &dels, &adds);
    rows
}

/// A side that is empty has no line number: a row that was removed has nothing on its right, a row
/// that was added nothing on its left.
pub open spec fn one_sided(row: RowView) -> bool {
    match row {
        RowView::Span(_, _) => true,
        RowView::Pair { left, left_no, right, right_no, kind } => match kind {
            PairKind::Removed => right.len() == 0 && right_no == 0,
            PairKind::Added => left.len() == 0 && left_no == 0,
            PairKind::Context => left == right,
            PairKind::Changed => true,
        },
    }
}

proof fn lemma_progress_sides(lines: Seq<Seq<char>>, n: int)
    requires
        0 <= n <= lines.len(),
    ensures
        forall|i: int|
            0 <= i < progress(lines, n).rows.len() ==> one_sided(
                #[trigger] progress(lines, n).rows[i],
            ),
    decreases n,
{
    if n > 0 {
        lemma_progress_sides(lines, n - 1);
        let p = progress(lines, n - 1);
        let q = progress(lines, n);
        assert forall|i: int| 0 <= i < q.rows.len() implies one_sided(#[trigger] q.rows[i]) by {
            if i < p.rows.len() {
                assert(q.rows[i] == p.rows[i]);
            } else {
                let k = i - p.rows.len();
                let block = paired(p.dels, p.adds);
                if k < block.len() {
                    assert(q.rows[i] == block[k]);
                }
            }
        }
    }
}

/// In every row of a difference an empty side is the side that has no such line.
pub proof fn law_rows_are_one_sided(diff: Seq<char>)
    ensures
        forall|i: int| 0 <= i < rows_of(diff).len() ==> one_sided(#[trigger] rows_of(diff)[i]),
{
    let lines = text::lines(diff);
    let p = progress(lines, lines.len() as int);
    lemma_progress_sides(lines, lines.len() as int);
    assert forall|i: int| 0 <= i < rows_of(diff).len() implies one_sided(
        #[trigger] rows_of(diff)[i],
    ) by {
        if i < p.rows.len() {
            assert(rows_of(diff)[i] == p.rows[i]);
        } else {
            assert(rows_of(diff)[i] == paired(p.dels, p.adds)[i - p.rows.len()]);
        }
    }
}

// ---------------------------------------------------------------- nothing is lost

/// The texts of numbered lines.
pub open spec fn texts_of(v: Seq<(i64, Seq<char>)>) -> Seq<Seq<char>> {
    Seq::new(v.len(), |i: int| v[i].1)
}

/// The line is an unchanged line of the file.
pub open spec fn is_file_line(line: Seq<char>) -> bool {
    !text::begins(line, "@@ "@) && !is_note(line)
}

proof fn lemma_signs(line: Seq<char>)
    ensures
        !(is_added(line) && is_removed(line)),
{
    reveal_strlit("-");
    reveal_strlit("+");
    if is_added(line) && is_removed(line) {
        assert(line.subrange(0, 1)[0] == '+');
        assert(line.subrange(0, 1)[0] == '-');
    }
}

/// The lines on the left of rows, rows that were added left out.
pub open spec fn old_side(rows: Seq<RowView>) -> Seq<Seq<char>>
    decreases rows.len(),
{
    if rows.len() == 0 {
        Seq::empty()
    } else {
        let before = old_side(rows.drop_last());
        match rows.last() {
            RowView::Span(_, _) => before,
            RowView::Pair { left, kind, .. } => if kind == PairKind::Added {
                before
            } else {
                before.push(left)
            },
        }
    }
}

/// The lines of the old file among the first `n` lines, as long as rows are made.
pub open spec fn old_lines(lines: Seq<Seq<char>>, n: int) -> Seq<Seq<char>>
    decreases n,
{
    if n <= 0 {
        Seq::empty()
    } else {
        let before = old_lines(lines, n - 1);
        let line = lines[n - 1];
        if progress(lines, n - 1).done || is_added(line) {
            before
        } else if is_removed(line) {
            before.push(text::after(line, 1))
        } else if is_file_line(line) {
            before.push(body(line))
        } else {
            before
        }
    }
}

proof fn lemma_old_side_block(
    rows: Seq<RowView>,
    dels: Seq<(i64, Seq<char>)>,
    adds: Seq<(i64, Seq<char>)>,
    n: int,
)
    requires
        0 <= n <= paired(dels, adds).len(),
    ensures
        old_side(rows + paired(dels, adds).take(n)) == old_side(rows) + texts_of(dels).take(
            if n < dels.len() {
                n
            } else {
                dels.len() as int
            },
        ),
    decreases n,
{
    let block = paired(dels, adds);
    if n == 0 {
        assert(rows + block.take(0) =~= rows);
        assert(old_side(rows) + texts_of(dels).take(0) =~= old_side(rows));
    } else {
        lemma_old_side_block(rows, dels, adds, n - 1);
        let all = rows + block.take(n);
        assert(all.drop_last() =~= rows + block.take(n - 1));
        assert(all.last() == block[n - 1]);
        if n <= dels.len() {
            assert(texts_of(dels).take(n) =~= texts_of(dels).take(n - 1).push(dels[n - 1].1));
            assert(old_side(rows) + texts_of(dels).take(n) =~= (old_side(rows) + texts_of(
                dels,
            ).take(n - 1)).push(dels[n - 1].1));
        }
    }
}

proof fn lemma_old_side(lines: Seq<Seq<char>>, n: int)
    requires
        0 <= n <= lines.len(),
    ensures
        old_side(progress(lines, n).rows) + texts_of(progress(lines, n).dels) == old_lines(
            lines,
            n,
        ),
    decreases n,
{
    if n == 0 {
        assert(texts_of(fresh().dels) =~= Seq::empty());
        assert(old_side(fresh().rows) + texts_of(fresh().dels) =~= Seq::empty());
    } else {
        lemma_old_side(lines, n - 1);
        let p = progress(lines, n - 1);
        let q = progress(lines, n);
        let line = lines[n - 1];
        lemma_signs(line);
        if p.done {
        } else if is_removed(line) {
            assert(texts_of(q.dels) =~= texts_of(p.dels).push(text::after(line, 1)));
            assert(old_side(q.rows) + texts_of(q.dels) =~= (old_side(p.rows) + texts_of(
                p.dels,
            )).push(text::after(line, 1)));
        } else if is_added(line) {
        } else {
            let block = paired(p.dels, p.adds);
            lemma_old_side_block(p.rows, p.dels, p.adds, block.len() as int);
            assert(block.take(block.len() as int) =~= block);
            assert(texts_of(p.dels).take(p.dels.len() as int) =~= texts_of(p.dels));
            let closed = p.rows + block;
            assert(old_side(closed) =~= old_lines(lines, n - 1)) by {
                assert(old_side(p.rows) + texts_of(p.dels) == old_lines(lines, n - 1));
            }
            let mid = after_block(
                Progress { rows: closed, dels: Seq::empty(), adds: Seq::empty(), ..p },
                line,
            );
            assert(texts_of(q.dels) =~= Seq::empty());
            assert(mid.rows.drop_last() =~= closed);
            assert(old_side(mid.rows) =~= old_lines(lines, n));
            if q.rows.len() > mid.rows.len() {
                assert(q.rows.drop_last() =~= mid.rows);
            } else {
                assert(q.rows =~= mid.rows);
            }
            assert(old_side(q.rows) + texts_of(q.dels) =~= old_lines(lines, n));
        }
    }
}

/// The lines on the right of rows, rows that were removed left out.
pub open spec fn new_side(rows: Seq<RowView>) -> Seq<Seq<char>>
    decreases rows.len(),
{
    if rows.len() == 0 {
        Seq::empty()
    } else {
        let before = new_side(rows.drop_last());
        match rows.last() {
            RowView::Span(_, _) => before,
            RowView::Pair { right, kind, .. } => if kind == PairKind::Removed {
                before
            } else {
                before.push(right)
            },
        }
    }
}

/// The lines of the new file among the first `n` lines, as long as rows are made.
pub open spec fn new_lines(lines: Seq<Seq<char>>, n: int) -> Seq<Seq<char>>
    decreases n,
{
    if n <= 0 {
        Seq::empty()
    } else {
        let before = new_lines(lines, n - 1);
        let line = lines[n - 1];
        if progress(lines, n - 1).done || is_removed(line) {
            before
        } else if is_added(line) {
            before.push(text::after(line, 1))
        } else if is_file_line(line) {
            before.push(body(line))
        } else {
            before
        }
    }
}

proof fn lemma_new_side_block(
    rows: Seq<RowView>,
    dels: Seq<(i64, Seq<char>)>,
    adds: Seq<(i64, Seq<char>)>,
    n: int,
)
    requires
        0 <= n <= paired(dels, adds).len(),
    ensures
        new_side(rows + paired(dels, adds).take(n)) == new_side(rows) + texts_of(adds).take(
            if n < adds.len() {
                n
            } else {
                adds.len() as int
            },
        ),
    decreases n,
{
    let block = paired(dels, adds);
    if n == 0 {
        assert(rows + block.take(0) =~= rows);
        assert(new_side(rows) + texts_of(adds).take(0) =~= new_side(rows));
    } else {
        lemma_new_side_block(rows, dels, adds, n - 1);
        let all = rows + block.take(n);
        assert(all.drop_last() =~= rows + block.take(n - 1));
        assert(all.last() == block[n - 1]);
        if n <= adds.len() {
            assert(texts_of(adds).take(n) =~= texts_of(adds).take(n - 1).push(adds[n - 1].1));
            assert(new_side(rows) + texts_of(adds).take(n) =~= (new_side(rows) + texts_of(
                adds,
            ).take(n - 1)).push(adds[n - 1].1));
        }
    }
}

proof fn lemma_new_side(lines: Seq<Seq<char>>, n: int)
    requires
        0 <= n <= lines.len(),
    ensures
        new_side(progress(lines, n).rows) + texts_of(progress(lines, n).adds) == new_lines(
            lines,
            n,
        ),
    decreases n,
{
    if n == 0 {
        assert(texts_of(fresh().adds) =~= Seq::empty());
        assert(new_side(fresh().rows) + texts_of(fresh().adds) =~= Seq::empty());
    } else {
        lemma_new_side(lines, n - 1);
        let p = progress(lines, n - 1);
        let q = progress(lines, n);
        let line = lines[n - 1];
        lemma_signs(line);
        if p.done {
        } else if is_added(line) {
            assert(texts_of(q.adds) =~= texts_of(p.adds).push(text::after(line, 1)));
            assert(new_side(q.rows) + texts_of(q.adds) =~= (new_side(p.rows) + texts_of(
                p.adds,
            )).push(text::after(line, 1)));
        } else if is_removed(line) {
        } else {
            let block = paired(p.dels, p.adds);
            lemma_new_side_block(p.rows, p.dels, p.adds, block.len() as int);
            assert(block.take(block.len() as int) =~= block);
            assert(texts_of(p.adds).take(p.adds.len() as int) =~= texts_of(p.adds));
            let closed = p.rows + block;
            assert(new_side(closed) =~= new_lines(lines, n - 1)) by {
                assert(new_side(p.rows) + texts_of(p.adds) == new_lines(lines, n - 1));
            }
            let mid = after_block(
                Progress { rows: closed, dels: Seq::empty(), adds: Seq::empty(), ..p },
                line,
            );
            assert(texts_of(q.adds) =~= Seq::empty());
            assert(mid.rows.drop_last() =~= closed);
            assert(new_side(mid.rows) =~= new_lines(lines, n));
            if q.rows.len() > mid.rows.len() {
                assert(q.rows.drop_last() =~= mid.rows);
            } else {
                assert(q.rows =~= mid.rows);
            }
            assert(new_side(q.rows) + texts_of(q.adds) =~= new_lines(lines, n));
        }
    }
}

/// The left side of the rows is the old file and the right side the new file, line by line and in
/// order, up to where the rows stop.
pub proof fn law_sides_are_the_files(diff: Seq<char>)
    ensures
        ({
            let lines = text::lines(diff);
            &&& old_side(rows_of(diff)) == old_lines(lines, lines.len() as int)
            &&& new_side(rows_of(diff)) == new_lines(lines, lines.len() as int)
        }),
{
    let lines = text::lines(diff);
    let n = lines.len() as int;
    lemma_old_side(lines, n);
    lemma_new_side(lines, n);
    let p = progress(lines, n);
    let block = paired(p.dels, p.adds);
    lemma_old_side_block(p.rows, p.dels, p.adds, block.len() as int);
    lemma_new_side_block(p.rows, p.dels, p.adds, block.len() as int);
    assert(block.take(block.len() as int) =~= block);
    assert(texts_of(p.dels).take(p.dels.len() as int) =~= texts_of(p.dels));
    assert(texts_of(p.adds).take(p.adds.len() as int) =~= texts_of(p.adds));
}

// ---------------------------------------------------------------- line numbers

/// The row is the head of a block of changes.
pub open spec fn is_head(row: RowView) -> bool {
    row matches RowView::Span(_, true)
}

/// The row shows a line of the old file.
pub open spec fn has_left(row: RowView) -> bool {
    row matches RowView::Pair { kind, .. } && kind != PairKind::Added
}

/// The row shows a line of the new file.
pub open spec fn has_right(row: RowView) -> bool {
    row matches RowView::Pair { kind, .. } && kind != PairKind::Removed
}

/// How many rows show a line of the old file.
pub open spec fn lefts(rows: Seq<RowView>) -> int
    decreases rows.len(),
{
    if rows.len() == 0 {
        0
    } else {
        lefts(rows.drop_last()) + if has_left(rows.last()) {
            1int
        } else {
            0int
        }
    }
}

/// How many rows show a line of the new file.
pub open spec fn rights(rows: Seq<RowView>) -> int
    decreases rows.len(),
{
    if rows.len() == 0 {
        0
    } else {
        rights(rows.drop_last()) + if has_right(rows.last()) {
            1int
        } else {
            0int
        }
    }
}

/// No block begins behind row `h`, up to row `i`.
pub open spec fn same_block(rows: Seq<RowView>, h: int, i: int) -> bool {
    forall|j: int| h < j <= i ==> !is_head(#[trigger] rows[j])
}

/// The row has the line numbers `x` and `y`, on the sides where it shows a line.
pub open spec fn row_counted(row: RowView, x: int, y: int) -> bool {
    row matches RowView::Pair { left_no, right_no, .. } ==> (has_left(row) ==> left_no == x) && (
    has_right(row) ==> right_no == y)
}

/// The rows of the block that row `h` begins are numbered from `x` on the left and from `y` on the
/// right, one by one.
pub open spec fn counted(rows: Seq<RowView>, h: int, x: int, y: int) -> bool {
    forall|i: int|
        h < i < rows.len() && same_block(rows, h, i) ==> row_counted(
            #[trigger] rows[i],
            x + lefts(rows.subrange(h + 1, i)),
            y + rights(rows.subrange(h + 1, i)),
        )
}

proof fn lemma_counted_push(rows: Seq<RowView>, h: int, x: int, y: int, row: RowView)
    requires
        0 <= h < rows.len(),
        counted(rows, h, x, y),
        same_block(rows, h, rows.len() - 1) && !is_head(row) ==> row_counted(
            row,
            x + lefts(rows.subrange(h + 1, rows.len() as int)),
            y + rights(rows.subrange(h + 1, rows.len() as int)),
        ),
    ensures
        counted(rows.push(row), h, x, y),
        ({
            let n = rows.len() as int;
            let all = rows.push(row);
            &&& lefts(all.subrange(h + 1, n + 1)) == lefts(rows.subrange(h + 1, n)) + if has_left(
                row,
            ) {
                1int
            } else {
                0int
            }
            &&& rights(all.subrange(h + 1, n + 1)) == rights(rows.subrange(h + 1, n))
                + if has_right(row) {
                1int
            } else {
                0int
            }
            &&& same_block(all, h, n) <==> same_block(rows, h, n - 1) && !is_head(row)
        }),
{
    let n = rows.len() as int;
    let all = rows.push(row);
    assert(all.subrange(h + 1, n + 1).drop_last() =~= rows.subrange(h + 1, n));
    assert(all.subrange(h + 1, n + 1).last() == row);
    if same_block(all, h, n) {
        assert(!is_head(all[n]));
        assert forall|j: int| h < j <= n - 1 implies !is_head(#[trigger] rows[j]) by {
            assert(all[j] == rows[j]);
        }
    }
    assert forall|i: int| h < i < all.len() && same_block(all, h, i) implies row_counted(
        #[trigger] all[i],
        x + lefts(all.subrange(h + 1, i)),
        y + rights(all.subrange(h + 1, i)),
    ) by {
        assert(all.subrange(h + 1, i) =~= rows.subrange(h + 1, i));
        if i < n {
            assert(all[i] == rows[i]);
            assert forall|j: int| h < j <= i implies !is_head(#[trigger] rows[j]) by {
                assert(all[j] == rows[j]);
            }
        }
    }
}

proof fn lemma_counted_block(
    rows: Seq<RowView>,
    h: int,
    x: int,
    y: int,
    dels: Seq<(i64, Seq<char>)>,
    adds: Seq<(i64, Seq<char>)>,
    n: int,
)
    requires
        0 <= h < rows.len(),
        counted(rows, h, x, y),
        0 <= n <= paired(dels, adds).len(),
        same_block(rows, h, rows.len() - 1) ==> {
            let l = lefts(rows.subrange(h + 1, rows.len() as int));
            let r = rights(rows.subrange(h + 1, rows.len() as int));
            &&& forall|k: int| 0 <= k < dels.len() ==> (#[trigger] dels[k]).0 == x + l + k
            &&& forall|k: int| 0 <= k < adds.len() ==> (#[trigger] adds[k]).0 == y + r + k
        },
    ensures
        ({
            let m = rows.len() as int;
            let all = rows + paired(dels, adds).take(n);
            &&& counted(all, h, x, y)
            &&& lefts(all.subrange(h + 1, m + n)) == lefts(rows.subrange(h + 1, m)) + if n
                < dels.len() {
                n
            } else {
                dels.len() as int
            }
            &&& rights(all.subrange(h + 1, m + n)) == rights(rows.subrange(h + 1, m)) + if n
                < adds.len() {
                n
            } else {
                adds.len() as int
            }
            &&& same_block(all, h, m + n - 1) <==> same_block(rows, h, m - 1)
        }),
    decreases n,
{
    let block = paired(dels, adds);
    if n == 0 {
        assert(rows + block.take(0) =~= rows);
    } else {
        lemma_counted_block(rows, h, x, y, dels, adds, n - 1);
        let before = rows + block.take(n - 1);
        let row = block[n - 1];
        assert(rows + block.take(n) =~= before.push(row));
        if n <= dels.len() {
            assert(dels[n - 1].0 == dels[n - 1].0);
        }
        if n <= adds.len() {
            assert(adds[n - 1].0 == adds[n - 1].0);
        }
        lemma_counted_push(before, h, x, y, row);
    }
}

/// Row `h` begins a block at the line numbers `x` and `y`.
spec fn starts(row: RowView, x: int, y: int) -> bool {
    row matches RowView::Span(line, true) && line_number(
        text::first_word(text::after(line, 3)),
        '-',
    ) == x && line_number(text::first_word(text::after_word(text::after(line, 3))), '+') == y
}

proof fn lemma_counted_progress(lines: Seq<Seq<char>>, n: int, h: int, x: int, y: int)
    requires
        0 <= n <= lines.len(),
        0 <= h,
        x + lines.len() <= i64::MAX,
        y + lines.len() <= i64::MAX,
    ensures
        ({
            let p = progress(lines, n);
            let m = p.rows.len() as int;
            let l = lefts(p.rows.subrange(h + 1, m));
            let r = rights(p.rows.subrange(h + 1, m));
            &&& p.done ==> p.dels.len() == 0 && p.adds.len() == 0
            &&& h < m && starts(p.rows[h], x, y) ==> {
                &&& counted(p.rows, h, x, y)
                &&& l + p.dels.len() <= n
                &&& r + p.adds.len() <= n
                &&& same_block(p.rows, h, m - 1) ==> {
                    &&& p.old_line == x + l + p.dels.len()
                    &&& p.new_line == y + r + p.adds.len()
                    &&& forall|k: int|
                        0 <= k < p.dels.len() ==> (#[trigger] p.dels[k]).0 == x + l + k
                    &&& forall|k: int|
                        0 <= k < p.adds.len() ==> (#[trigger] p.adds[k]).0 == y + r + k
                }
            }
        }),
    decreases n,
{
    reveal_strlit("@@ ");
    if n > 0 {
        lemma_counted_progress(lines, n - 1, h, x, y);
        let p = progress(lines, n - 1);
        let q = progress(lines, n);
        let line = lines[n - 1];
        lemma_signs(line);
        if p.done || is_removed(line) || is_added(line) {
        } else {
            let block = paired(p.dels, p.adds);
            let closed = p.rows + block;
            assert(block.take(block.len() as int) =~= block);
            let shut = Progress { rows: closed, dels: Seq::empty(), adds: Seq::empty(), ..p };
            let mid = after_block(shut, line);
            let m = closed.len() as int;
            if h < p.rows.len() && starts(p.rows[h], x, y) {
                lemma_counted_block(p.rows, h, x, y, p.dels, p.adds, block.len() as int);
                assert(closed[h] == p.rows[h]);
                lemma_counted_push(closed, h, x, y, mid.rows[m]);
                assert(mid.rows =~= closed.push(mid.rows[m]));
            } else if h == m && starts(mid.rows[m], x, y) {
                assert(mid.rows.subrange(h + 1, m + 1) =~= Seq::empty());
            } else if h < m {
                if p.rows.len() <= h {
                    assert(closed[h] == block[h - p.rows.len()]);
                }
            }
            if q.rows.len() > mid.rows.len() && h < mid.rows.len() && starts(mid.rows[h], x, y) {
                lemma_counted_push(mid.rows, h, x, y, q.rows[mid.rows.len() as int]);
            }
        }
    }
}

/// A head of a block, as Subversion writes it, with the first lines `a` and `b`. What stands for
/// the lengths may be missing.
pub open spec fn head_of(a: int, old_len: Seq<char>, b: int, rest: Seq<char>) -> Seq<char> {
    "@@ -"@ + text::decimal(a) + old_len + " +"@ + text::decimal(b) + rest
}

/// A length: nothing, or a comma and what is neither a comma nor white space.
pub open spec fn is_length(s: Seq<char>) -> bool {
    s.len() == 0 || s[0] == ',' && forall|i: int| 0 <= i < s.len() ==> !text::is_space(
        #[trigger] s[i],
    )
}

proof fn lemma_number_word(n: int, len: Seq<char>, sign: char)
    requires
        0 <= n <= i64::MAX,
        is_length(len),
        sign == '-' || sign == '+',
    ensures
        line_number(seq![sign] + text::decimal(n) + len, sign) == n,
        forall|i: int|
            0 <= i < (seq![sign] + text::decimal(n) + len).len() ==> !text::is_space(
                #[trigger] (seq![sign] + text::decimal(n) + len)[i],
            ),
{
    let d = text::decimal(n);
    let w = seq![sign] + d + len;
    text::lemma_padded_value(n, 0);
    assert(text::padded(n, 0) =~= d);
    assert forall|i: int| 0 <= i < w.len() implies !text::is_space(#[trigger] w[i]) by {
        if 1 <= i < 1 + d.len() {
            assert(w[i] == d[i - 1]);
        } else if i >= 1 + d.len() {
            assert(w[i] == len[i - 1 - d.len()]);
        }
    }
    let bare = d + len;
    assert(w.subrange(1, w.len() as int) =~= bare);
    assert(bare[0] == d[0]);
    assert('0' <= d[0] <= '9');
    assert(text::strip_start(bare, sign, sign) == bare);
    assert(text::strip_start(w, sign, sign) == bare);
    assert forall|j: int| 0 <= j < d.len() implies #[trigger] bare[j] != ',' by {
        assert(bare[j] == d[j]);
    }
    if len.len() > 0 {
        assert(bare[d.len() as int] == len[0]);
    }
    text::lemma_index_of_is(bare, ',', d.len() as int);
    assert(text::up_to(bare, ',') =~= d);
}

proof fn lemma_first_word(w: Seq<char>, rest: Seq<char>)
    requires
        w.len() > 0,
        forall|i: int| 0 <= i < w.len() ==> !text::is_space(#[trigger] w[i]),
        rest.len() > 0 ==> text::is_space(rest[0]),
    ensures
        text::first_word(w + rest) == w,
        text::after_word(w + rest) == rest,
{
    let s = w + rest;
    assert(s[0] == w[0]);
    assert(text::trim_start(s) == s);
    assert forall|j: int| 0 <= j < w.len() implies !text::is_space(#[trigger] s[j]) by {
        assert(s[j] == w[j]);
    }
    text::lemma_space_index_at(s, w.len() as int);
    assert(text::first_word(s) =~= w);
    assert(text::after_word(s) =~= rest);
}

proof fn lemma_head_starts(a: int, old_len: Seq<char>, b: int, new_len: Seq<char>, rest: Seq<char>)
    requires
        0 <= a <= i64::MAX,
        0 <= b <= i64::MAX,
        is_length(old_len),
        is_length(new_len),
        rest.len() > 0 ==> text::is_space(rest[0]),
    ensures
        starts(RowView::Span(head_of(a, old_len, b, new_len + rest), true), a, b),
{
    reveal_strlit("@@ -");
    reveal_strlit(" +");
    let line = head_of(a, old_len, b, new_len + rest);
    let first = seq!['-'] + text::decimal(a) + old_len;
    let second = seq!['+'] + text::decimal(b) + new_len;
    lemma_number_word(a, old_len, '-');
    lemma_number_word(b, new_len, '+');
    let tail = seq![' '] + second + rest;
    assert(text::after(line, 3) =~= first + tail);
    lemma_first_word(first, tail);
    lemma_first_word(second, rest);
    assert(tail.subrange(1, tail.len() as int) =~= second + rest);
    assert((second + rest)[0] == '+');
    assert(text::trim_start(second + rest) == second + rest);
    assert(text::trim_start(tail) == second + rest);
    assert(text::first_word(tail) == text::first_word(second + rest));
}

/// Behind a head `@@ -a,m +b,n @@` the line numbers on the left count up from `a` and those on the
/// right from `b`, one for each row of the block that shows a line on that side, whatever the
/// numbers and whether or not the lengths are written.
pub proof fn law_lines_are_numbered_from_the_head(
    diff: Seq<char>,
    h: int,
    a: int,
    old_len: Seq<char>,
    b: int,
    new_len: Seq<char>,
    rest: Seq<char>,
)
    requires
        0 <= h < rows_of(diff).len(),
        rows_of(diff)[h] == RowView::Span(head_of(a, old_len, b, new_len + rest), true),
        0 <= a <= i64::MAX - text::lines(diff).len(),
        0 <= b <= i64::MAX - text::lines(diff).len(),
        is_length(old_len),
        is_length(new_len),
        rest.len() > 0 ==> text::is_space(rest[0]),
    ensures
        forall|i: int|
            h < i < rows_of(diff).len() && (forall|j: int|
                h < j <= i ==> !(#[trigger] rows_of(diff)[j] matches RowView::Span(_, true)))
                ==> match #[trigger] rows_of(diff)[i] {
                RowView::Span(_, _) => true,
                RowView::Pair { left_no, right_no, kind, .. } => {
                    &&& kind != PairKind::Added ==> left_no == a + lefts(
                        rows_of(diff).subrange(h + 1, i),
                    )
                    &&& kind != PairKind::Removed ==> right_no == b + rights(
                        rows_of(diff).subrange(h + 1, i),
                    )
                },
            },
{
    let lines = text::lines(diff);
    let n = lines.len() as int;
    let p = progress(lines, n);
    let rows = rows_of(diff);
    let block = paired(p.dels, p.adds);
    lemma_head_starts(a, old_len, b, new_len, rest);
    lemma_counted_progress(lines, n, h, a, b);
    if h >= p.rows.len() {
        assert(rows[h] == block[h - p.rows.len()]);
    } else {
        assert(rows[h] == p.rows[h]);
        lemma_counted_block(p.rows, h, a, b, p.dels, p.adds, block.len() as int);
        assert(block.take(block.len() as int) =~= block);
        assert forall|i: int|
            h < i < rows.len() && (forall|j: int|
                h < j <= i ==> !(#[trigger] rows[j] matches RowView::Span(_, true)))
            implies match #[trigger] rows[i] {
            RowView::Span(_, _) => true,
            RowView::Pair { left_no, right_no, kind, .. } => {
                &&& kind != PairKind::Added ==> left_no == a + lefts(rows.subrange(h + 1, i))
                &&& kind != PairKind::Removed ==> right_no == b + rights(rows.subrange(h + 1, i))
            },
        } by {
            assert(same_block(rows, h, i));
            assert(row_counted(
                rows[i],
                a + lefts(rows.subrange(h + 1, i)),
                b + rights(rows.subrange(h + 1, i)),
            ));
        }
    }
}

// ---------------------------------------------------------------- what the rows show

/// What one side of a row shows, or what a line of a difference says of that side.
pub enum Shown {
    /// A line that the other file has not, or has otherwise.
    Own(Seq<char>),
    /// A line of both files.
    Both(Seq<char>),
    /// A line about the files.
    Note(Seq<char>),
    /// The head of a block.
    Head(Seq<char>),
}

/// What the left of a row shows.
pub open spec fn left_of(row: RowView) -> Option<Shown> {
    match row {
        RowView::Span(line, head) => Some(
            if head {
                Shown::Head(line)
            } else {
                Shown::Note(line)
            },
        ),
        RowView::Pair { left, kind, .. } => match kind {
            PairKind::Context => Some(Shown::Both(left)),
            PairKind::Added => None,
            _ => Some(Shown::Own(left)),
        },
    }
}

/// What the right of a row shows.
pub open spec fn right_of(row: RowView) -> Option<Shown> {
    match row {
        RowView::Span(line, head) => Some(
            if head {
                Shown::Head(line)
            } else {
                Shown::Note(line)
            },
        ),
        RowView::Pair { right, kind, .. } => match kind {
            PairKind::Context => Some(Shown::Both(right)),
            PairKind::Removed => None,
            _ => Some(Shown::Own(right)),
        },
    }
}

/// The line begins with `c`, but not with three of them.
pub open spec fn marked(line: Seq<char>, c: char) -> bool {
    line.len() > 0 && line[0] == c && !(line.len() >= 3 && line[1] == c && line[2] == c)
}

/// What a line that is neither removed nor added says of either file.
pub open spec fn common(line: Seq<char>) -> Shown {
    if text::begins(line, seq!['@', '@', ' ']) {
        Shown::Head(line)
    } else if text::begins(line, "Index:"@) || text::begins(line, seq!['=', '=', '=', '='])
        || text::begins(line, seq!['-', '-', '-']) || text::begins(line, seq!['+', '+', '+'])
        || text::begins(line, "Propchange:"@) || text::begins(line, seq!['\\']) {
        Shown::Note(line)
    } else if line.len() > 0 && line[0] == ' ' {
        Shown::Both(line.skip(1))
    } else {
        Shown::Both(line)
    }
}

/// What a line of a difference says of the old file.
pub open spec fn old_says(line: Seq<char>) -> Option<Shown> {
    if marked(line, '-') {
        Some(Shown::Own(line.skip(1)))
    } else if marked(line, '+') {
        None
    } else {
        Some(common(line))
    }
}

/// What a line of a difference says of the new file.
pub open spec fn new_says(line: Seq<char>) -> Option<Shown> {
    if marked(line, '+') {
        Some(Shown::Own(line.skip(1)))
    } else if marked(line, '-') {
        None
    } else {
        Some(common(line))
    }
}

proof fn lemma_marked(line: Seq<char>)
    ensures
        marked(line, '-') <==> is_removed(line),
        marked(line, '+') <==> is_added(line),
        text::begins(line, seq!['@', '@', ' ']) <==> text::begins(line, "@@ "@),
        text::begins(line, seq!['=', '=', '=', '=']) <==> text::begins(line, "===="@),
        text::begins(line, seq!['-', '-', '-']) <==> text::begins(line, "---"@),
        text::begins(line, seq!['+', '+', '+']) <==> text::begins(line, "+++"@),
        text::begins(line, seq!['\\']) <==> text::begins(line, "\\"@),
        line.len() > 0 && line[0] == ' ' ==> body(line) == line.skip(1),
        !(line.len() > 0 && line[0] == ' ') ==> body(line) == line,
        line.len() > 0 ==> text::after(line, 1) == line.skip(1),
{
    reveal_strlit("-");
    reveal_strlit("+");
    reveal_strlit(" ");
    reveal_strlit("@@ ");
    reveal_strlit("====");
    reveal_strlit("---");
    reveal_strlit("+++");
    reveal_strlit("\\");
    assert("@@ "@ =~= seq!['@', '@', ' ']);
    assert("===="@ =~= seq!['=', '=', '=', '=']);
    assert("---"@ =~= seq!['-', '-', '-']);
    assert("+++"@ =~= seq!['+', '+', '+']);
    assert("\\"@ =~= seq!['\\']);
    assert("-"@ =~= seq!['-']);
    assert("+"@ =~= seq!['+']);
    assert(" "@ =~= seq![' ']);
    if line.len() > 0 {
        assert(line.subrange(0, 1) =~= seq![line[0]]);
        assert(seq![line[0]][0] == line[0]);
        assert(text::after(line, 1) =~= line.skip(1));
    }
    if line.len() >= 3 {
        let t = line.subrange(0, 3);
        assert(t[0] == line[0] && t[1] == line[1] && t[2] == line[2]);
        if marked(line, '-') && t == seq!['-', '-', '-'] {
            assert(t[1] == '-' && t[2] == '-');
        }
        if marked(line, '+') && t == seq!['+', '+', '+'] {
            assert(t[1] == '+' && t[2] == '+');
        }
        if line[0] == '-' && line[1] == '-' && line[2] == '-' {
            assert(t =~= seq!['-', '-', '-']);
        }
        if line[0] == '+' && line[1] == '+' && line[2] == '+' {
            assert(t =~= seq!['+', '+', '+']);
        }
    }
    assert(text::begins(line, "-"@) <==> line.len() > 0 && line[0] == '-') by {
        if text::begins(line, "-"@) {
            assert(line.subrange(0, 1)[0] == '-');
        }
    }
    assert(text::begins(line, "+"@) <==> line.len() > 0 && line[0] == '+') by {
        if text::begins(line, "+"@) {
            assert(line.subrange(0, 1)[0] == '+');
        }
    }
    assert(text::begins(line, " "@) <==> line.len() > 0 && line[0] == ' ') by {
        if text::begins(line, " "@) {
            assert(line.subrange(0, 1)[0] == ' ');
        }
    }
}

/// What the lefts of rows show, in order.
pub open spec fn left_shown(rows: Seq<RowView>) -> Seq<Shown> {
    rows.filter_map(|row: RowView| left_of(row))
}

/// What the rights of rows show, in order.
pub open spec fn right_shown(rows: Seq<RowView>) -> Seq<Shown> {
    rows.filter_map(|row: RowView| right_of(row))
}

/// The lines that a block of changes waits with.
spec fn waiting(v: Seq<(i64, Seq<char>)>) -> Seq<Shown> {
    Seq::new(v.len(), |i: int| Shown::Own(v[i].1))
}

proof fn lemma_shown_push(rows: Seq<RowView>, row: RowView)
    ensures
        left_shown(rows.push(row)) == match left_of(row) {
            Some(s) => left_shown(rows).push(s),
            None => left_shown(rows),
        },
        right_shown(rows.push(row)) == match right_of(row) {
            Some(s) => right_shown(rows).push(s),
            None => right_shown(rows),
        },
{
    reveal(Seq::filter_map);
    assert(rows.push(row).drop_last() =~= rows);
}

proof fn lemma_shown_block(
    rows: Seq<RowView>,
    dels: Seq<(i64, Seq<char>)>,
    adds: Seq<(i64, Seq<char>)>,
    n: int,
)
    requires
        0 <= n <= paired(dels, adds).len(),
    ensures
        left_shown(rows + paired(dels, adds).take(n)) == left_shown(rows) + waiting(dels).take(
            if n < dels.len() {
                n
            } else {
                dels.len() as int
            },
        ),
        right_shown(rows + paired(dels, adds).take(n)) == right_shown(rows) + waiting(adds).take(
            if n < adds.len() {
                n
            } else {
                adds.len() as int
            },
        ),
    decreases n,
{
    let block = paired(dels, adds);
    if n == 0 {
        assert(rows + block.take(0) =~= rows);
        assert(left_shown(rows) + waiting(dels).take(0) =~= left_shown(rows));
        assert(right_shown(rows) + waiting(adds).take(0) =~= right_shown(rows));
    } else {
        lemma_shown_block(rows, dels, adds, n - 1);
        let before = rows + block.take(n - 1);
        assert(rows + block.take(n) =~= before.push(block[n - 1]));
        lemma_shown_push(before, block[n - 1]);
        if n <= dels.len() {
            assert(left_shown(rows) + waiting(dels).take(n) =~= (left_shown(rows) + waiting(
                dels,
            ).take(n - 1)).push(Shown::Own(dels[n - 1].1)));
        }
        if n <= adds.len() {
            assert(right_shown(rows) + waiting(adds).take(n) =~= (right_shown(rows) + waiting(
                adds,
            ).take(n - 1)).push(Shown::Own(adds[n - 1].1)));
        }
    }
}

proof fn lemma_shown(lines: Seq<Seq<char>>, n: int)
    requires
        0 <= n <= lines.len(),
        !progress(lines, n).done,
    ensures
        left_shown(progress(lines, n).rows) + waiting(progress(lines, n).dels) == lines.take(
            n,
        ).filter_map(|line: Seq<char>| old_says(line)),
        right_shown(progress(lines, n).rows) + waiting(progress(lines, n).adds) == lines.take(
            n,
        ).filter_map(|line: Seq<char>| new_says(line)),
    decreases n,
{
    reveal(Seq::filter_map);
    let p = progress(lines, n - 1);
    let q = progress(lines, n);
    if n == 0 {
        assert(left_shown(q.rows) + waiting(q.dels) =~= Seq::empty());
        assert(right_shown(q.rows) + waiting(q.adds) =~= Seq::empty());
    } else {
        lemma_shown(lines, n - 1);
        let line = lines[n - 1];
        lemma_marked(line);
        assert(lines.take(n).drop_last() =~= lines.take(n - 1));
        assert(lines.take(n).last() == line);
        if is_removed(line) {
            let own = Shown::Own(line.skip(1));
            assert(left_shown(q.rows) + waiting(q.dels) =~= (left_shown(p.rows) + waiting(
                p.dels,
            )).push(own));
        } else if is_added(line) {
            let own = Shown::Own(line.skip(1));
            assert(right_shown(q.rows) + waiting(q.adds) =~= (right_shown(p.rows) + waiting(
                p.adds,
            )).push(own));
        } else {
            let block = paired(p.dels, p.adds);
            assert(block.take(block.len() as int) =~= block);
            lemma_shown_block(p.rows, p.dels, p.adds, block.len() as int);
            assert(waiting(p.dels).take(p.dels.len() as int) =~= waiting(p.dels));
            assert(waiting(p.adds).take(p.adds.len() as int) =~= waiting(p.adds));
            let closed = p.rows + block;
            let row = q.rows.last();
            assert(q.rows =~= closed.push(row));
            lemma_shown_push(closed, row);
            assert(left_shown(q.rows) + waiting(q.dels) =~= left_shown(q.rows));
            assert(right_shown(q.rows) + waiting(q.adds) =~= right_shown(q.rows));
        }
    }
}

/// The row breaks up blocks of changes: it goes across, or shows a line of both files.
pub open spec fn is_fixed(row: RowView) -> bool {
    match row {
        RowView::Span(_, _) => true,
        RowView::Pair { kind, .. } => kind == PairKind::Context,
    }
}

/// The row that says that there would be more.
pub open spec fn is_cut(row: RowView) -> bool {
    row == RowView::Span("差异过长，只展开前 2000 行"@, false)
}

/// Within a block of changes the lines of both sides come first, and then one side goes on alone.
/// Behind two thousand rows the next row that breaks up blocks is the last one but for the notice.
spec fn in_shape(rows: Seq<RowView>, done: bool) -> bool {
    &&& forall|i: int|
        #![trigger rows[i]]
        0 < i < rows.len() && !is_fixed(rows[i]) && !is_fixed(rows[i - 1]) ==> pair_order(
            rows[i - 1],
            rows[i],
        )
    &&& forall|i: int|
        0 <= i < rows.len() && is_fixed(#[trigger] rows[i]) ==> if is_cut(rows[i]) {
            done && i == rows.len() - 1
        } else {
            i < 2000 || done && i == rows.len() - 2
        }
    &&& done ==> rows.len() > 2001 && is_cut(rows[rows.len() - 1]) && is_fixed(
        rows[rows.len() - 2],
    )
}

/// The kinds of two rows of a block of changes that follow each other.
pub open spec fn pair_order(first: RowView, second: RowView) -> bool {
    first matches RowView::Pair { kind: a, .. } && second matches RowView::Pair { kind: b, .. }
        && match a {
        PairKind::Changed => b != PairKind::Context,
        PairKind::Removed => b == PairKind::Removed,
        PairKind::Added => b == PairKind::Added,
        PairKind::Context => false,
    }
}

proof fn lemma_cut(line: Seq<char>)
    requires
        text::begins(line, "@@ "@) || is_note(line),
    ensures
        line != "差异过长，只展开前 2000 行"@,
{
    reveal_strlit("差异过长，只展开前 2000 行");
    reveal_strlit("@@ ");
    reveal_strlit("Index:");
    reveal_strlit("====");
    reveal_strlit("---");
    reveal_strlit("+++");
    reveal_strlit("Propchange:");
    reveal_strlit("\\");
    if text::begins(line, "@@ "@) {
        assert(line.subrange(0, 3)[0] == '@');
    } else if text::begins(line, "Index:"@) {
        assert(line.subrange(0, 6)[0] == 'I');
    } else if text::begins(line, "===="@) {
        assert(line.subrange(0, 4)[0] == '=');
    } else if text::begins(line, "---"@) {
        assert(line.subrange(0, 3)[0] == '-');
    } else if text::begins(line, "+++"@) {
        assert(line.subrange(0, 3)[0] == '+');
    } else if text::begins(line, "Propchange:"@) {
        assert(line.subrange(0, 11)[0] == 'P');
    } else {
        assert(line.subrange(0, 1)[0] == '\\');
    }
}

proof fn lemma_in_shape(lines: Seq<Seq<char>>, n: int)
    requires
        0 <= n <= lines.len(),
    ensures
        ({
            let p = progress(lines, n);
            &&& in_shape(p.rows, p.done)
            &&& p.rows.len() > 0 ==> is_fixed(p.rows[p.rows.len() - 1])
            &&& p.done ==> p.dels.len() == 0 && p.adds.len() == 0
        }),
    decreases n,
{
    if n > 0 {
        lemma_in_shape(lines, n - 1);
        let p = progress(lines, n - 1);
        let q = progress(lines, n);
        let line = lines[n - 1];
        if p.done || is_removed(line) || is_added(line) {
        } else {
            let m = p.rows.len() as int;
            let block = paired(p.dels, p.adds);
            let k = m + block.len();
            if text::begins(line, "@@ "@) || is_note(line) {
                lemma_cut(line);
            }
            assert forall|i: int| 0 <= i < q.rows.len() implies #[trigger] q.rows[i] == if i < m {
                p.rows[i]
            } else if i < k {
                block[i - m]
            } else {
                q.rows[i]
            } by {}
            assert(is_fixed(q.rows[k]) && !is_cut(q.rows[k]));
            assert forall|i: int|
                #![trigger q.rows[i]]
                0 < i < q.rows.len() && !is_fixed(q.rows[i]) && !is_fixed(
                    q.rows[i - 1],
                ) implies pair_order(q.rows[i - 1], q.rows[i]) by {
                if i < m {
                    assert(p.rows[i] == q.rows[i]);
                    assert(p.rows[i - 1] == q.rows[i - 1]);
                } else if i == m {
                    assert(q.rows[i - 1] == p.rows[m - 1]);
                } else if i < k {
                    assert(q.rows[i - 1] == block[i - 1 - m]);
                }
            }
            assert forall|i: int|
                0 <= i < q.rows.len() && is_fixed(#[trigger] q.rows[i]) implies if is_cut(
                q.rows[i],
            ) {
                q.done && i == q.rows.len() - 1
            } else {
                i < 2000 || q.done && i == q.rows.len() - 2
            } by {
                if i < m {
                    assert(p.rows[i] == q.rows[i]);
                } else if i < k {
                    assert(!is_fixed(block[i - m]));
                }
            }
        }
    }
}

/// The left of the rows shows, in order, just what the lines of the difference say of the old file,
/// and the right what they say of the new one, as long as no row says that there would be more.
/// Removed and added lines of a block stand side by side before one of the sides goes on alone.
/// The notice comes last, behind the first row past two thousand that breaks up blocks, and only
/// there.
pub proof fn law_rows_show_the_difference(diff: Seq<char>)
    ensures
        ({
            let rows = rows_of(diff);
            let lines = text::lines(diff);
            let whole = forall|i: int| 0 <= i < rows.len() ==> !is_cut(#[trigger] rows[i]);
            &&& whole ==> left_shown(rows) == lines.filter_map(|line: Seq<char>| old_says(line))
            &&& whole ==> right_shown(rows) == lines.filter_map(|line: Seq<char>| new_says(line))
            &&& forall|i: int|
                #![trigger rows[i]]
                0 < i < rows.len() && !is_fixed(rows[i]) && !is_fixed(rows[i - 1]) ==> pair_order(
                    rows[i - 1],
                    rows[i],
                )
            &&& forall|i: int|
                0 <= i < rows.len() && is_cut(#[trigger] rows[i]) ==> i == rows.len() - 1 && i
                    > 2000 && is_fixed(rows[i - 1])
            &&& forall|i: int|
                2000 <= i < rows.len() && is_fixed(#[trigger] rows[i]) && !is_cut(rows[i]) ==> i
                    == rows.len() - 2 && is_cut(rows[i + 1])
        }),
{
    let rows = rows_of(diff);
    let lines = text::lines(diff);
    let n = lines.len() as int;
    let p = progress(lines, n);
    let m = p.rows.len() as int;
    let block = paired(p.dels, p.adds);
    lemma_in_shape(lines, n);
    assert(lines.take(n) =~= lines);
    assert(block.take(block.len() as int) =~= block);
    assert(waiting(p.dels).take(p.dels.len() as int) =~= waiting(p.dels));
    assert(waiting(p.adds).take(p.adds.len() as int) =~= waiting(p.adds));
    if !p.done {
        lemma_shown(lines, n);
        lemma_shown_block(p.rows, p.dels, p.adds, block.len() as int);
    } else {
        assert(rows =~= p.rows);
        assert(is_cut(rows[m - 1]));
    }
    assert forall|i: int| 0 <= i < rows.len() implies #[trigger] rows[i] == if i < m {
        p.rows[i]
    } else {
        block[i - m]
    } by {}
    assert forall|i: int|
        #![trigger rows[i]]
        0 < i < rows.len() && !is_fixed(rows[i]) && !is_fixed(rows[i - 1]) implies pair_order(
        rows[i - 1],
        rows[i],
    ) by {
        if i < m {
            assert(p.rows[i] == rows[i]);
            assert(p.rows[i - 1] == rows[i - 1]);
        } else if i == m {
            assert(rows[i - 1] == p.rows[m - 1]);
        } else {
            assert(rows[i - 1] == block[i - 1 - m]);
        }
    }
    assert forall|i: int| 0 <= i < rows.len() && is_cut(#[trigger] rows[i]) implies i == rows.len()
        - 1 && i > 2000 && is_fixed(rows[i - 1]) by {
        if i < m {
            assert(is_fixed(p.rows[i]));
        } else {
            assert(!is_fixed(block[i - m]));
        }
    }
    assert forall|i: int|
        2000 <= i < rows.len() && is_fixed(#[trigger] rows[i]) && !is_cut(rows[i]) implies i
        == rows.len() - 2 && is_cut(rows[i + 1]) by {
        if i < m {
            assert(is_fixed(p.rows[i]));
        } else {
            assert(!is_fixed(block[i - m]));
        }
    }
}

/// A line is shown as added where one plus sign stands before it, as removed where one minus sign
/// does, and as a heading where two at signs do; a line that is none of these, or the name of a
/// file behind three signs, is plain.
pub proof fn law_lines_are_coloured_by_their_sign(s: Seq<char>)
    ensures
        s.len() < 2 || s[0] != '+' || s[1] != '+' ==> tone(seq!['+'] + s) == Tone::Added,
        s.len() < 2 || s[0] != '-' || s[1] != '-' ==> tone(seq!['-'] + s) == Tone::Removed,
        tone(seq!['+', '+', '+'] + s) == Tone::Plain,
        tone(seq!['-', '-', '-'] + s) == Tone::Plain,
        tone(seq!['@', '@'] + s) == Tone::Header,
        tone(seq![' '] + s) == Tone::Plain,
{
    reveal_strlit("+");
    reveal_strlit("-");
    reveal_strlit("+++");
    reveal_strlit("---");
    reveal_strlit("@@");
    reveal_strlit("Index:");
    let one = seq!['+'] + s;
    let three = seq!['+', '+', '+'] + s;
    assert(one.subrange(0, 1) =~= "+"@);
    assert(text::begins(one, "+"@));
    if text::begins(one, "+++"@) {
        assert(one.subrange(0, 3)[1] == "+++"@[1]);
        assert(one.subrange(0, 3)[2] == "+++"@[2]);
    }
    assert(three.subrange(0, 3) =~= "+++"@);
    assert(text::begins(three, "+++"@));
    assert(three[0] == '+');
    let less = seq!['-'] + s;
    let file = seq!['-', '-', '-'] + s;
    assert(less.subrange(0, 1) =~= "-"@);
    assert(text::begins(less, "-"@));
    assert(less[0] == '-');
    if text::begins(less, "---"@) {
        assert(less.subrange(0, 3)[1] == "---"@[1]);
        assert(less.subrange(0, 3)[2] == "---"@[2]);
    }
    assert(file.subrange(0, 3) =~= "---"@);
    assert(text::begins(file, "---"@));
    assert(file[0] == '-');
    let head = seq!['@', '@'] + s;
    assert(head.subrange(0, 2) =~= "@@"@);
    assert(text::begins(head, "@@"@));
    assert(head[0] == '@');
    let plain = seq![' '] + s;
    assert(plain[0] == ' ');
    lemma_first_signs(one);
    lemma_first_signs(three);
    lemma_first_signs(less);
    lemma_first_signs(file);
    lemma_first_signs(head);
    lemma_first_signs(plain);
}

proof fn lemma_first_signs(line: Seq<char>)
    requires
        line.len() > 0,
    ensures
        text::begins(line, "+"@) ==> line[0] == '+',
        text::begins(line, "-"@) ==> line[0] == '-',
        text::begins(line, "@@"@) ==> line[0] == '@',
        text::begins(line, "Index:"@) ==> line[0] == 'I',
{
    reveal_strlit("+");
    reveal_strlit("-");
    reveal_strlit("@@");
    reveal_strlit("Index:");
    if text::begins(line, "+"@) {
        assert(line.subrange(0, 1)[0] == line[0]);
    }
    if text::begins(line, "-"@) {
        assert(line.subrange(0, 1)[0] == line[0]);
    }
    if text::begins(line, "@@"@) {
        assert(line.subrange(0, 2)[0] == line[0]);
    }
    if text::begins(line, "Index:"@) {
        assert(line.subrange(0, 6)[0] == line[0]);
    }
}

} // verus!

