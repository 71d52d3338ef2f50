//! Windows paths held as text: roots, joining, last names, depth, and what lies below a path. Both
//! `\` and `/` separate names. A path may begin with a drive (`C:`), with a server and a share
//! (`\\server\share`) or with a device (`\\.\COM1`). A verbatim path begins with `\\?\`; in it only
//! `\` separates names, and a single dot is a name.

use vstd::prelude::*;

use crate::text;

verus! {

/// `c` separates the names in a path.
pub open spec fn is_separator(c: char) -> bool {
    c == '\\' || c == '/'
}

/// `c` separates the names in a path that is verbatim, or not.
pub open spec fn parts(c: char, verbatim: bool) -> bool {
    c == '\\' || (!verbatim && c == '/')
}

fn separator(c: char) -> (r: bool)
    ensures
        r == is_separator(c),
{
    c == '\\' || c == '/'
}

/// The position of the first separator from `from` on, or the length.
pub open spec fn next_separator(s: Seq<char>, from: int, verbatim: bool) -> int
    decreases s.len() - from,
{
    if from >= s.len() || parts(s[from], verbatim) {
        from
    } else {
        next_separator(s, from + 1, verbatim)
    }
}

proof fn lemma_next_separator(s: Seq<char>, from: int, verbatim: bool)
    requires
        0 <= from <= s.len(),
    ensures
        from <= next_separator(s, from, verbatim) <= s.len(),
    decreases s.len() - from,
{
    if from >= s.len() || parts(s[from], verbatim) {
    } else {
        lemma_next_separator(s, from + 1, verbatim);
    }
}

// ---------------------------------------------------------------- what a path begins with

/// A letter that a drive can have.
pub open spec fn is_letter(c: char) -> bool {
    'a' <= c <= 'z' || 'A' <= c <= 'Z'
}

/// The path begins with a drive.
pub open spec fn has_drive(s: Seq<char>) -> bool {
    s.len() >= 2 && s[1] == ':' && is_letter(s[0])
}

/// The path is verbatim.
pub open spec fn is_verbatim(s: Seq<char>) -> bool {
    s.len() >= 4 && s[0] == '\\' && s[1] == '\\' && s[2] == '?' && s[3] == '\\'
}

/// The path is verbatim and begins with a server and a share.
pub open spec fn has_verbatim_share(s: Seq<char>) -> bool {
    is_verbatim(s) && s.len() >= 8 && s[4] == 'U' && s[5] == 'N' && s[6] == 'C' && is_separator(
        s[7],
    )
}

/// The path is verbatim and begins with a drive.
pub open spec fn has_verbatim_drive(s: Seq<char>) -> bool {
    is_verbatim(s) && !has_verbatim_share(s) && s.len() >= 6 && is_letter(s[4]) && s[5] == ':' && (
    s.len() == 6 || is_separator(s[6]))
}

/// The path begins with a device.
pub open spec fn has_device(s: Seq<char>) -> bool {
    s.len() >= 4 && is_separator(s[0]) && is_separator(s[1]) && s[2] == '.' && is_separator(s[3])
}

/// The path begins with a server and a share.
pub open spec fn has_share(s: Seq<char>) -> bool {
    let server_end = next_separator(s, 2, false);
    &&& !is_verbatim(s)
    &&& !has_device(s)
    &&& s.len() > 2
    &&& is_separator(s[0])
    &&& is_separator(s[1])
    &&& 2 < server_end
    &&& server_end + 1 < s.len()
    &&& !is_separator(s[server_end + 1])
}

/// Where the server and the share of a verbatim path end. The share may be missing.
pub open spec fn verbatim_share_end(s: Seq<char>) -> int {
    let server_end = next_separator(s, 8, true);
    let end = next_separator(s, server_end + 1, true);
    if server_end >= s.len() || end == server_end + 1 {
        server_end
    } else {
        end
    }
}

/// How many characters stand before the root: a drive, a server and a share, a device, or what
/// makes a path verbatim.
pub open spec fn prefix_len(s: Seq<char>) -> int {
    if has_verbatim_share(s) {
        verbatim_share_end(s)
    } else if has_verbatim_drive(s) {
        6
    } else if is_verbatim(s) {
        next_separator(s, 4, true)
    } else if has_device(s) {
        next_separator(s, 4, false)
    } else if has_share(s) {
        next_separator(s, next_separator(s, 2, false) + 1, false)
    } else if has_drive(s) {
        2
    } else {
        0
    }
}

/// How many characters the root takes.
pub open spec fn root_len(s: Seq<char>) -> int {
    if prefix_len(s) < s.len() && is_separator(s[prefix_len(s)]) {
        1
    } else {
        0
    }
}

/// Where the names of a path begin.
pub open spec fn body_start(s: Seq<char>) -> int {
    prefix_len(s) + root_len(s)
}

/// The path begins at a root. A share and a device have one of their own.
pub open spec fn rooted(s: Seq<char>) -> bool {
    root_len(s) == 1 || has_share(s) || has_device(s)
}

/// A single dot stands where the path begins, behind its drive if it has one.
pub open spec fn dot_first(s: Seq<char>) -> bool {
    let p = prefix_len(s);
    (p == 0 || has_drive(s)) && p < s.len() && s[p] == '.' && (p + 1 == s.len() || is_separator(
        s[p + 1],
    ))
}

/// The path begins with a single dot, which is kept.
pub open spec fn dotted(s: Seq<char>) -> bool {
    prefix_len(s) == 0 && dot_first(s)
}

/// The path does not depend on where it is looked up from.
pub open spec fn absolute(s: Seq<char>) -> bool {
    prefix_len(s) > 0 && (root_len(s) == 1 || !has_drive(s))
}

/// What stands before the root is a part of the path.
pub proof fn lemma_prefix_len(s: Seq<char>)
    ensures
        0 <= prefix_len(s) <= body_start(s) <= s.len(),
        has_verbatim_share(s) ==> prefix_len(s) >= 8,
        has_device(s) ==> prefix_len(s) >= 4,
        has_share(s) || has_device(s) || is_verbatim(s) ==> prefix_len(s) > 0 && !has_drive(s),
{
    if has_verbatim_share(s) {
        lemma_next_separator(s, 8, true);
        if next_separator(s, 8, true) < s.len() {
            lemma_next_separator(s, next_separator(s, 8, true) + 1, true);
        }
    } else if has_verbatim_drive(s) {
    } else if is_verbatim(s) {
        lemma_next_separator(s, 4, true);
    } else if has_device(s) {
        lemma_next_separator(s, 4, false);
    } else if has_share(s) {
        lemma_next_separator(s, 2, false);
        lemma_next_separator(s, next_separator(s, 2, false) + 1, false);
    }
}

fn find_separator(s: &Vec<char>, from: usize, verbatim: bool) -> (r: usize)
    requires
        from <= s.len(),
    ensures
        r == next_separator(s@, from as int, verbatim),
        from <= r <= s.len(),
{
    let mut i: usize = from;
    while i < s.len() && s[i] != '\\' && (verbatim || s[i] != '/')
        invariant
            from <= i <= s.len(),
            next_separator(s@, from as int, verbatim) == next_separator(s@, i as int, verbatim),
        decreases s.len() - i,
    {
        i += 1;
    }
    i
}

fn letter(c: char) -> (r: bool)
    ensures
        r == is_letter(c),
{
    ('a' <= c && c <= 'z') || ('A' <= c && c <= 'Z')
}

fn drive(s: &Vec<char>) -> (r: bool)
    ensures
        r == has_drive(s@),
{
    s.len() >= 2 && s[1] == ':' && letter(s[0])
}

fn verbatim(s: &Vec<char>) -> (r: bool)
    ensures
        r == is_verbatim(s@),
{
    s.len() >= 4 && s[0] == '\\' && s[1] == '\\' && s[2] == '?' && s[3] == '\\'
}

fn verbatim_share(s: &Vec<char>) -> (r: bool)
    ensures
        r == has_verbatim_share(s@),
{
    verbatim(s) && s.len() >= 8 && s[4] == 'U' && s[5] == 'N' && s[6] == 'C' && separator(s[7])
}

fn verbatim_drive(s: &Vec<char>) -> (r: bool)
    ensures
        r == has_verbatim_drive(s@),
{
    verbatim(s) && !verbatim_share(s) && s.len() >= 6 && letter(s[4]) && s[5] == ':' && (s.len()
        == 6 || separator(s[6]))
}

fn device(s: &Vec<char>) -> (r: bool)
    ensures
        r == has_device(s@),
{
    s.len() >= 4 && separator(s[0]) && separator(s[1]) && s[2] == '.' && separator(s[3])
}

fn share(s: &Vec<char>) -> (r: bool)
    ensures
        r == has_share(s@),
{
    if verbatim(s) || device(s) || s.len() <= 2 || !separator(s[0]) || !separator(s[1]) {
        return false;
    }
    let server_end = find_separator(s, 2, false);
    2 < server_end && server_end < s.len() && server_end + 1 < s.len() && !separator(
        s[server_end + 1],
    )
}

fn prefix(s: &Vec<char>) -> (r: usize)
    ensures
        r == prefix_len(s@),
        r <= s.len(),
{
    proof {
        lemma_prefix_len(s@);
    }
    if verbatim_share(s) {
        let server_end = find_separator(s, 8, true);
        if server_end >= s.len() {
            return server_end;
        }
        let end = find_separator(s, server_end + 1, true);
        if end == server_end + 1 {
            server_end
        } else {
            end
        }
    } else if verbatim_drive(s) {
        6
    } else if verbatim(s) {
        find_separator(s, 4, true)
    } else if device(s) {
        find_separator(s, 4, false)
    } else if share(s) {
        let server_end = find_separator(s, 2, false);
        find_separator(s, server_end + 1, false)
    } else if drive(s) {
        2
    } else {
        0
    }
}

fn body(s: &Vec<char>) -> (r: usize)
    ensures
        r == body_start(s@),
        r <= s.len(),
{
    let p = prefix(s);
    if p < s.len() && separator(s[p]) {
        p + 1
    } else {
        p
    }
}

fn at_root(s: &Vec<char>) -> (r: bool)
    ensures
        r == rooted(s@),
{
    body(s) > prefix(s) || share(s) || device(s)
}

fn dot_in_front(s: &Vec<char>) -> (r: bool)
    ensures
        r == dot_first(s@),
{
    let p = prefix(s);
    (p == 0 || drive(s)) && p < s.len() && s[p] == '.' && (p + 1 == s.len() || separator(s[p + 1]))
}

/// Whether a path does not depend on where it is looked up from.
pub fn is_absolute(path: &str) -> (r: bool)
    ensures
        r == absolute(path@),
{
    let s = text::chars_of(path);
    let p = prefix(&s);
    p > 0 && (body(&s) > p || !drive(&s))
}

// ---------------------------------------------------------------- names

/// A name that counts: not empty and, but for verbatim paths, not a single dot.
pub open spec fn is_name(name: Seq<char>, verbatim: bool) -> bool {
    name.len() > 0 && (verbatim || name != seq!['.'])
}

/// The names in `s` from position `from` on.
pub open spec fn names_from(s: Seq<char>, from: int, verbatim: bool) -> Seq<Seq<char>>
    decreases s.len() - from,
    via names_from_decreases
{
    if from < 0 || from > s.len() {
        Seq::empty()
    } else {
        let end = next_separator(s, from, verbatim);
        let name = s.subrange(from, end);
        let rest = if end < s.len() {
            names_from(s, end + 1, verbatim)
        } else {
            Seq::empty()
        };
        if is_name(name, verbatim) {
            seq![name] + rest
        } else {
            rest
        }
    }
}

#[via_fn]
proof fn names_from_decreases(s: Seq<char>, from: int, verbatim: bool) {
    if 0 <= from <= s.len() {
        lemma_next_separator(s, from, verbatim);
    }
}

/// The names in a path.
pub open spec fn names(s: Seq<char>) -> Seq<Seq<char>> {
    names_from(s, body_start(s), is_verbatim(s))
}

/// The name leads to where it stands, or one level up.
pub open spec fn is_step(name: Seq<char>) -> bool {
    name == seq!['.'] || name == seq!['.', '.']
}

/// The name of the file or directory that a path leads to; none where the path ends in `..`, or in
/// a dot that is kept, or holds no name.
pub open spec fn file_name(s: Seq<char>) -> Option<Seq<char>> {
    let all = names(s);
    if all.len() == 0 || is_step(all.last()) {
        None
    } else {
        Some(all.last())
    }
}

/// How many parts a path has: what it begins with, its root, a dot in front, its names.
pub open spec fn part_count(s: Seq<char>) -> int {
    (if prefix_len(s) > 0 {
        1int
    } else {
        0
    }) + (if rooted(s) {
        1int
    } else {
        0
    }) + (if dotted(s) {
        1int
    } else {
        0
    }) + names(s).len()
}

/// Whether the characters from `at` to `end` are a name that counts.
fn counts(s: &Vec<char>, at: usize, end: usize, verbatim: bool) -> (r: bool)
    requires
        at <= end <= s.len(),
    ensures
        r == is_name(s@.subrange(at as int, end as int), verbatim),
{
    let ghost name = s@.subrange(at as int, end as int);
    let dot = end - at == 1 && s[at] == '.';
    assert(dot == (name == seq!['.'])) by {
        if dot {
            assert(name =~= seq!['.']);
        } else if name == seq!['.'] {
            assert(name.len() == 1);
            assert(name[0] == s@[at as int]);
        }
    }
    end > at && (verbatim || !dot)
}

fn list_names(s: &Vec<char>, from: usize, verbatim: bool) -> (r: Vec<String>)
    requires
        from <= s.len(),
    ensures
        text::views(r@) == names_from(s@, from as int, verbatim),
        r@.len() <= s@.len() - from + 1,
{
    let mut out: Vec<String> = Vec::new();
    let mut at: usize = from;
    let ghost all = names_from(s@, from as int, verbatim);
    assert(text::views(out@) + all =~= all);
    loop
        invariant_except_break
            from <= at <= s.len(),
            all == text::views(out@) + names_from(s@, at as int, verbatim),
            out@.len() <= at - from,
        ensures
            all == text::views(out@),
            out@.len() <= s@.len() - from + 1,
        decreases s.len() - at,
    {
        let end = find_separator(s, at, verbatim);
        let ghost before = text::views(out@);
        let ghost name = s@.subrange(at as int, end as int);
        if counts(s, at, end, verbatim) {
            let ghost kept = out@;
            let piece = text::string_from(s, at, end);
            out.push(piece);
            assert(text::views(out@) =~= text::views(kept).push(name));
            if end < s.len() {
                assert(before + names_from(s@, at as int, verbatim) =~= text::views(out@)
                    + names_from(s@, end + 1, verbatim));
            } else {
                assert(before + names_from(s@, at as int, verbatim) =~= text::views(out@));
            }
        } else {
            if end == s.len() {
                assert(before + names_from(s@, at as int, verbatim) =~= text::views(out@));
            }
        }
        if end == s.len() {
            break;
        }
        at = end + 1;
    }
    out
}

fn is_dots(name: &str) -> (r: bool)
    ensures
        r == is_step(name@),
{
    proof {
        reveal_strlit(".");
        reveal_strlit("..");
        assert("."@ =~= seq!['.']);
        assert(".."@ =~= seq!['.', '.']);
    }
    text::same(name, ".") || text::same(name, "..")
}

/// The name of the file or directory that a path leads to.
pub fn name_of(path: &str) -> (r: Option<String>)
    ensures
        match r {
            Some(name) => file_name(path@) == Some(name@),
            None => file_name(path@) is None,
        },
{
    let s = text::chars_of(path);
    let all = list_names(&s, body(&s), verbatim(&s));
    let n = all.len();
    assert(text::views(all@).len() == n);
    if n == 0 {
        return None;
    }
    assert(text::views(all@)[n - 1] == all@[n - 1]@);
    if is_dots(all[n - 1].as_str()) {
        None
    } else {
        Some(all[n - 1].clone())
    }
}

/// How many parts a path has.
pub fn parts_in(path: &str) -> (r: u128)
    ensures
        r == part_count(path@),
{
    let s = text::chars_of(path);
    let all = list_names(&s, body(&s), verbatim(&s));
    assert(text::views(all@).len() == all@.len());
    let mut n: u128 = all.len() as u128;
    if prefix(&s) > 0 {
        n += 1;
    }
    if at_root(&s) {
        n += 1;
    }
    if prefix(&s) == 0 && dot_in_front(&s) {
        n += 1;
    }
    n
}

// ---------------------------------------------------------------- joining

/// `have`, with the first `n` names of `more` followed: `..` leads one name back, where there is a
/// name to go back from.
pub open spec fn followed(have: Seq<Seq<char>>, more: Seq<Seq<char>>, n: int) -> Seq<Seq<char>>
    decreases n,
{
    if n <= 0 {
        have
    } else {
        let before = followed(have, more, n - 1);
        if more[n - 1] == seq!['.', '.'] {
            if before.len() > 0 && !is_step(before.last()) {
                before.drop_last()
            } else {
                before
            }
        } else {
            before.push(more[n - 1])
        }
    }
}

/// `tail`, which is not empty and has nothing before its root, looked up from the verbatim path
/// `base`. The names are spelled out.
pub open spec fn joined_verbatim(base: Seq<char>, tail: Seq<char>) -> Seq<char> {
    let start = if root_len(tail) == 1 {
        Seq::empty()
    } else {
        names(base)
    };
    let all = followed(start, names(tail), names(tail).len() as int);
    base.subrange(0, prefix_len(base)) + if root_len(base) == 1 || root_len(tail) == 1 || all.len()
        > 0 {
        seq!['\\']
    } else {
        Seq::empty()
    } + text::joined(all, seq!['\\'])
}

/// `tail` looked up from `base`.
pub open spec fn joined(base: Seq<char>, tail: Seq<char>) -> Seq<char> {
    if prefix_len(tail) > 0 {
        tail
    } else if is_verbatim(base) && tail.len() > 0 {
        joined_verbatim(base, tail)
    } else if tail.len() > 0 && is_separator(tail[0]) {
        base.subrange(0, prefix_len(base)) + tail
    } else if base.len() == 0 || is_separator(base[base.len() - 1]) || (has_drive(base)
        && base.len() == 2) {
        base + tail
    } else {
        base.push('\\') + tail
    }
}

fn follow(have: Vec<String>, more: &Vec<String>) -> (r: Vec<String>)
    ensures
        text::views(r@) == followed(text::views(have@), text::views(more@), more@.len() as int),
{
    let ghost hv = text::views(have@);
    let ghost mv = text::views(more@);
    let mut out = have;
    let mut i: usize = 0;
    while i < more.len()
        invariant
            i <= more.len(),
            mv == text::views(more@),
            text::views(out@) == followed(hv, mv, i as int),
        decreases more.len() - i,
    {
        let ghost before = out@;
        assert(mv[i as int] == more@[i as int]@);
        proof {
            reveal_strlit("..");
            assert(".."@ =~= seq!['.', '.']);
        }
        if text::same(more[i].as_str(), "..") {
            let n = out.len();
            if n > 0 {
                assert(text::views(before)[n - 1] == before[n - 1]@);
                if !is_dots(out[n - 1].as_str()) {
                    let _ = out.pop();
                    assert(text::views(out@) =~= text::views(before).drop_last());
                }
            }
        } else {
            let name = more[i].clone();
            out.push(name);
            assert(text::views(out@) =~= text::views(before).push(mv[i as int]));
        }
        i += 1;
    }
    out
}

fn join_verbatim(b: &Vec<char>, t: &Vec<char>) -> (r: String)
    ensures
        r@ == joined_verbatim(b@, t@),
{
    let tail_root = body(t) > prefix(t);
    let base_root = body(b) > prefix(b);
    let start = if tail_root {
        Vec::new()
    } else {
        list_names(b, body(b), verbatim(b))
    };
    assert(tail_root ==> text::views(start@) =~= Seq::<Seq<char>>::empty());
    let more = list_names(t, body(t), verbatim(t));
    assert(text::views(more@).len() == more@.len());
    let all = follow(start, &more);
    assert(text::views(all@).len() == all@.len());
    let mut out = text::string_from(b, 0, prefix(b));
    let ghost front = out@;
    if base_root || tail_root || all.len() > 0 {
        out.push('\\');
        assert(out@ =~= front + seq!['\\']);
    } else {
        assert(out@ =~= front + Seq::empty());
    }
    proof {
        reveal_strlit("\\");
        assert("\\"@ =~= seq!['\\']);
    }
    let names = text::join_with(&all, "\\");
    out.append(names.as_str());
    out
}

/// `tail` looked up from `base`.
pub fn join(base: &str, tail: &str) -> (r: String)
    ensures
        r@ == joined(base@, tail@),
{
    let b = text::chars_of(base);
    let t = text::chars_of(tail);
    if prefix(&t) > 0 {
        return tail.to_owned();
    }
    if verbatim(&b) && t.len() > 0 {
        return join_verbatim(&b, &t);
    }
    if t.len() > 0 && separator(t[0]) {
        let end = prefix(&b);
        let mut r = text::string_from(&b, 0, end);
        r.append(tail);
        return r;
    }
    let mut r = base.to_owned();
    if !(b.len() == 0 || separator(b[b.len() - 1]) || (drive(&b) && b.len() == 2)) {
        r.push('\\');
    }
    r.append(tail);
    r
}

// ---------------------------------------------------------------- one spelling

/// The capital of a letter.
pub open spec fn capital(c: char) -> char {
    if 'a' <= c <= 'z' {
        ((c as u8) - 32) as char
    } else {
        c
    }
}

/// One spelling for what stands before the root: drives with a capital letter, devices and verbatim
/// paths with backslashes, shares with slashes. The share of a verbatim path ends in a colon,
/// also where it is missing.
pub open spec fn spelled_prefix(s: Seq<char>) -> Seq<char> {
    let p = prefix_len(s);
    if has_verbatim_share(s) {
        "\\\\?\\UNC\\"@ + s.subrange(8, p) + if p == next_separator(s, 8, true) {
            "\\:"@
        } else {
            ":"@
        }
    } else if has_verbatim_drive(s) {
        "\\\\?\\"@ + seq![capital(s[4]), ':']
    } else if is_verbatim(s) {
        s.subrange(0, p)
    } else if has_device(s) {
        "\\\\.\\"@ + s.subrange(4, p)
    } else if has_drive(s) {
        seq![capital(s[0]), ':']
    } else {
        Seq::new(
            p as nat,
            |i: int|
                if is_separator(s[i]) {
                    '/'
                } else {
                    s[i]
                },
        )
    }
}

/// The one spelling of a path. Names are separated by backslashes, and those that do not count are
/// left out but for a dot in front. Paths are the same where their spellings are.
pub open spec fn spelled(s: Seq<char>) -> Seq<char> {
    spelled_prefix(s) + if rooted(s) {
        seq!['\\']
    } else if dotted(s) {
        seq!['.', '\\']
    } else {
        Seq::empty()
    } + text::joined(names(s), seq!['\\'])
}

fn capital_of(c: char) -> (r: char)
    ensures
        r == capital(c),
{
    if 'a' <= c && c <= 'z' {
        ((c as u8) - 32) as char
    } else {
        c
    }
}

fn spell_prefix(s: &Vec<char>) -> (r: String)
    ensures
        r@ == spelled_prefix(s@),
{
    proof {
        lemma_prefix_len(s@);
    }
    let p = prefix(s);
    if verbatim_share(s) {
        proof {
            lemma_next_separator(s@, 8, true);
        }
        let mut out = "\\\\?\\UNC\\".to_owned();
        let name = text::string_from(s, 8, p);
        out.append(name.as_str());
        if p == find_separator(s, 8, true) {
            out.append("\\:");
        } else {
            out.append(":");
        }
        out
    } else if verbatim_drive(s) {
        let mut out = "\\\\?\\".to_owned();
        let ghost front = out@;
        out.push(capital_of(s[4]));
        out.push(':');
        assert(out@ =~= front + seq![capital(s@[4]), ':']);
        out
    } else if verbatim(s) {
        text::string_from(s, 0, p)
    } else if device(s) {
        proof {
            lemma_next_separator(s@, 4, false);
        }
        let mut out = "\\\\.\\".to_owned();
        let name = text::string_from(s, 4, p);
        out.append(name.as_str());
        out
    } else if drive(s) {
        let mut out = String::new();
        out.push(capital_of(s[0]));
        out.push(':');
        assert(out@ =~= spelled_prefix(s@));
        out
    } else {
        let mut out = String::new();
        let mut i: usize = 0;
        assert(spelled_prefix(s@).take(0) =~= Seq::empty());
        while i < p
            invariant
                i <= p <= s.len(),
                p == prefix_len(s@),
                !is_verbatim(s@),
                !has_device(s@),
                !has_drive(s@),
                out@ == spelled_prefix(s@).take(i as int),
            decreases p - i,
        {
            if separator(s[i]) {
                out.push('/');
            } else {
                out.push(s[i]);
            }
            i += 1;
            assert(out@ =~= spelled_prefix(s@).take(i as int));
        }
        assert(spelled_prefix(s@).take(p as int) =~= spelled_prefix(s@));
        out
    }
}

/// The one spelling of a path.
pub fn spelling(path: &str) -> (r: String)
    ensures
        r@ == spelled(path@),
{
    let s = text::chars_of(path);
    let mut out = spell_prefix(&s);
    let ghost front = out@;
    if at_root(&s) {
        out.push('\\');
        assert(out@ =~= front + seq!['\\']);
    } else if prefix(&s) == 0 && dot_in_front(&s) {
        out.push('.');
        out.push('\\');
        assert(out@ =~= front + seq!['.', '\\']);
    } else {
        assert(out@ =~= front + Seq::empty());
    }
    let names = list_names(&s, body(&s), verbatim(&s));
    proof {
        reveal_strlit("\\");
        assert("\\"@ =~= seq!['\\']);
    }
    let tail = text::join_with(&names, "\\");
    out.append(tail.as_str());
    out
}

// ---------------------------------------------------------------- below a path

/// Where the next name begins from `from` on, or the length.
pub open spec fn name_start(s: Seq<char>, from: int, verbatim: bool) -> int
    decreases s.len() - from,
    via name_start_decreases
{
    if from < 0 || from >= s.len() {
        s.len() as int
    } else {
        let end = next_separator(s, from, verbatim);
        if is_name(s.subrange(from, end), verbatim) {
            from
        } else if end < s.len() {
            name_start(s, end + 1, verbatim)
        } else {
            s.len() as int
        }
    }
}

#[via_fn]
proof fn name_start_decreases(s: Seq<char>, from: int, verbatim: bool) {
    if 0 <= from < s.len() {
        lemma_next_separator(s, from, verbatim);
    }
}

proof fn lemma_name_start(s: Seq<char>, from: int, verbatim: bool)
    requires
        0 <= from <= s.len(),
    ensures
        from <= name_start(s, from, verbatim) <= s.len(),
        name_start(s, from, verbatim) < s.len() ==> name_start(s, from, verbatim)
            < next_separator(s, name_start(s, from, verbatim), verbatim) <= s.len(),
    decreases s.len() - from,
{
    if from < s.len() {
        let end = next_separator(s, from, verbatim);
        lemma_next_separator(s, from, verbatim);
        if !is_name(s.subrange(from, end), verbatim) && end < s.len() {
            lemma_name_start(s, end + 1, verbatim);
        }
    }
}

/// Where the last name behind `from` ends; `from` where there is none.
pub open spec fn names_end(s: Seq<char>, from: int, verbatim: bool) -> int
    decreases s.len() - from,
    via names_end_decreases
{
    let at = name_start(s, from, verbatim);
    if from < 0 || from > s.len() || at >= s.len() {
        from
    } else {
        names_end(s, next_separator(s, at, verbatim), verbatim)
    }
}

#[via_fn]
proof fn names_end_decreases(s: Seq<char>, from: int, verbatim: bool) {
    if 0 <= from <= s.len() {
        lemma_name_start(s, from, verbatim);
    }
}

/// Where in `s`, behind `i`, the next name begins once the names of `root` behind `j` were passed;
/// nothing where `s` has others.
pub open spec fn passed(s: Seq<char>, i: int, root: Seq<char>, j: int) -> Option<int>
    decreases root.len() - j,
    via passed_decreases
{
    let v = is_verbatim(s);
    let a = name_start(s, i, v);
    let b = name_start(root, j, is_verbatim(root));
    if j < 0 || j > root.len() || b >= root.len() {
        Some(a)
    } else if a >= s.len() {
        None
    } else {
        let c = next_separator(s, a, v);
        let d = next_separator(root, b, is_verbatim(root));
        if s.subrange(a, c) == root.subrange(b, d) {
            passed(s, c, root, d)
        } else {
            None
        }
    }
}

#[via_fn]
proof fn passed_decreases(s: Seq<char>, i: int, root: Seq<char>, j: int) {
    if 0 <= j <= root.len() {
        lemma_name_start(root, j, is_verbatim(root));
    }
}

/// Where a path ends, separators behind it and dots that do not count left out.
pub open spec fn path_end(s: Seq<char>) -> int {
    let start = body_start(s) + if root_len(s) == 0 && dot_first(s) {
        1int
    } else {
        0
    };
    names_end(s, start, is_verbatim(s))
}

/// What lies of a path below `root`, as it is written; nothing where it does not lie there.
pub open spec fn below(s: Seq<char>, root: Seq<char>) -> Option<Seq<char>> {
    if root.len() == 0 {
        Some(s.subrange(0, path_end(s)))
    } else if spelled_prefix(s) != spelled_prefix(root) {
        None
    } else if !rooted(root) && !dotted(root) && names(root).len() == 0 {
        Some(s.subrange(prefix_len(s), path_end(s)))
    } else if rooted(s) != rooted(root) || dotted(s) != dotted(root) {
        None
    } else {
        match passed(s, body_start(s), root, body_start(root)) {
            Some(at) => Some(
                s.subrange(
                    at,
                    if at < path_end(s) {
                        path_end(s)
                    } else {
                        at
                    },
                ),
            ),
            None => None,
        }
    }
}

fn find_name(s: &Vec<char>, from: usize, verbatim: bool) -> (r: usize)
    requires
        from <= s.len(),
    ensures
        r == name_start(s@, from as int, verbatim),
        from <= r <= s.len(),
{
    let mut at: usize = from;
    while at < s.len()
        invariant
            from <= at <= s.len(),
            name_start(s@, from as int, verbatim) == name_start(s@, at as int, verbatim),
        decreases s.len() - at,
    {
        let end = find_separator(s, at, verbatim);
        if counts(s, at, end, verbatim) {
            return at;
        }
        if end == s.len() {
            return end;
        }
        at = end + 1;
    }
    at
}

fn find_end(s: &Vec<char>) -> (r: usize)
    ensures
        r == path_end(s@),
        body_start(s@) <= r <= s.len(),
{
    let v = verbatim(s);
    let mut at: usize = body(s);
    if at == prefix(s) && dot_in_front(s) {
        at += 1;
    }
    assert(path_end(s@) == names_end(s@, at as int, v));
    loop
        invariant
            v == is_verbatim(s@),
            body_start(s@) <= at <= s.len(),
            path_end(s@) == names_end(s@, at as int, v),
        decreases s.len() - at,
    {
        let name = find_name(s, at, v);
        if name >= s.len() {
            return at;
        }
        proof {
            lemma_name_start(s@, at as int, v);
        }
        at = find_separator(s, name, v);
    }
}

fn pass(s: &Vec<char>, root: &Vec<char>) -> (r: Option<usize>)
    ensures
        match r {
            Some(at) => passed(s@, body_start(s@), root@, body_start(root@)) == Some(at as int)
                && body_start(s@) <= at <= s.len(),
            None => passed(s@, body_start(s@), root@, body_start(root@)) is None,
        },
{
    let v = verbatim(s);
    let w = verbatim(root);
    let mut i: usize = body(s);
    let mut j: usize = body(root);
    loop
        invariant
            v == is_verbatim(s@),
            w == is_verbatim(root@),
            body_start(s@) <= i <= s.len(),
            j <= root.len(),
            passed(s@, body_start(s@), root@, body_start(root@)) == passed(
                s@,
                i as int,
                root@,
                j as int,
            ),
        decreases root.len() - j,
    {
        let a = find_name(s, i, v);
        let b = find_name(root, j, w);
        if b >= root.len() {
            return Some(a);
        }
        if a >= s.len() {
            return None;
        }
        proof {
            lemma_name_start(root@, j as int, w);
        }
        let c = find_separator(s, a, v);
        let d = find_separator(root, b, w);
        let one = text::string_from(s, a, c);
        let other = text::string_from(root, b, d);
        if !text::same(one.as_str(), other.as_str()) {
            return None;
        }
        i = c;
        j = d;
    }
}

/// What lies of a path below `root`.
pub fn find_below(path: &str, root: &str) -> (r: Option<String>)
    ensures
        match r {
            Some(t) => below(path@, root@) == Some(t@),
            None => below(path@, root@) is None,
        },
{
    let s = text::chars_of(path);
    let t = text::chars_of(root);
    proof {
        lemma_prefix_len(s@);
    }
    let end = find_end(&s);
    if t.len() == 0 {
        return Some(text::string_from(&s, 0, end));
    }
    let one = spell_prefix(&s);
    let other = spell_prefix(&t);
    if !text::same(one.as_str(), other.as_str()) {
        return None;
    }
    let known = list_names(&t, body(&t), verbatim(&t));
    assert(text::views(known@).len() == known@.len());
    let dot = prefix(&t) == 0 && dot_in_front(&t);
    if !at_root(&t) && !dot && known.len() == 0 {
        return Some(text::string_from(&s, prefix(&s), end));
    }
    if at_root(&s) != at_root(&t) || (prefix(&s) == 0 && dot_in_front(&s)) != dot {
        return None;
    }
    match pass(&s, &t) {
        Some(at) => if at < end {
            Some(text::string_from(&s, at, end))
        } else {
            Some(text::string_from(&s, at, at))
        },
        None => None,
    }
}

// ---------------------------------------------------------------- laws

/// Names with a separator of either kind before each of them.
pub open spec fn strung(names: Seq<Seq<char>>, by: Seq<char>) -> Seq<char>
    decreases names.len(),
{
    if names.len() == 0 {
        Seq::empty()
    } else {
        strung(names.drop_last(), by).push(by[names.len() - 1]) + names.last()
    }
}

/// The texts can be names in a path: none is empty or a single dot, none holds a separator.
pub open spec fn are_names(names: Seq<Seq<char>>) -> bool {
    forall|k: int|
        0 <= k < names.len() ==> (#[trigger] names[k]).len() > 0 && names[k] != seq!['.']
            && !names[k].contains('\\') && !names[k].contains('/')
}

/// The characters separate names.
pub open spec fn are_separators(by: Seq<char>) -> bool {
    forall|k: int| 0 <= k < by.len() ==> #[trigger] by[k] == '\\' || by[k] == '/'
}

proof fn lemma_separator_is(s: Seq<char>, from: int, to: int)
    requires
        0 <= from <= to <= s.len(),
        forall|i: int| from <= i < to ==> #[trigger] s[i] != '\\' && s[i] != '/',
        to < s.len() ==> s[to] == '\\' || s[to] == '/',
    ensures
        next_separator(s, from, false) == to,
    decreases to - from,
{
    if from < to {
        lemma_separator_is(s, from + 1, to);
    }
}

/// The names from `from` on, once more is set behind the path.
proof fn lemma_names_behind(s: Seq<char>, c: char, name: Seq<char>, from: int)
    requires
        0 <= from <= s.len(),
        c == '\\' || c == '/',
        name.len() > 0 && name != seq!['.'] && !name.contains('\\') && !name.contains('/'),
    ensures
        names_from(s.push(c) + name, from, false) == names_from(s, from, false).push(name),
    decreases s.len() - from,
{
    let all = s.push(c) + name;
    let n = s.len() as int;
    lemma_next_separator(s, from, false);
    let end = next_separator(s, from, false);
    lemma_separator_at(s, from);
    assert forall|i: int| from <= i < end implies #[trigger] all[i] != '\\' && all[i] != '/' by {
        assert(all[i] == s[i]);
    }
    assert(all[n] == c);
    if end < n {
        assert(all[end] == s[end]);
    }
    lemma_separator_is(all, from, end);
    assert(all.subrange(from, end) =~= s.subrange(from, end));
    if end < n {
        lemma_names_behind(s, c, name, end + 1);
        let rest = names_from(s, end + 1, false);
        assert(seq![s.subrange(from, end)] + rest.push(name) =~= (seq![s.subrange(from, end)]
            + rest).push(name));
    } else {
        assert forall|i: int| n + 1 <= i < all.len() implies #[trigger] all[i] != '\\' && all[i]
            != '/' by {
            assert(all[i] == name[i - n - 1]);
            assert(name.contains(name[i - n - 1]));
        }
        lemma_separator_is(all, n + 1, all.len() as int);
        assert(all.subrange(n + 1, all.len() as int) =~= name);
        assert(names_from(all, n + 1, false) =~= seq![name]);
        assert(names_from(s, from, false) =~= if is_name(s.subrange(from, end), false) {
            seq![s.subrange(from, end)]
        } else {
            Seq::empty()
        });
        assert(names_from(all, from, false) =~= names_from(s, from, false).push(name));
    }
}

proof fn lemma_separator_at(s: Seq<char>, from: int)
    requires
        0 <= from <= s.len(),
    ensures
        forall|i: int|
            from <= i < next_separator(s, from, false) ==> #[trigger] s[i] != '\\' && s[i] != '/',
        next_separator(s, from, false) < s.len() ==> s[next_separator(s, from, false)] == '\\'
            || s[next_separator(s, from, false)] == '/',
    decreases s.len() - from,
{
    if from < s.len() && !parts(s[from], false) {
        lemma_separator_at(s, from + 1);
    }
}

/// A path on a drive has the names that were strung together, whatever separators stand between
/// them. It does not depend on where it is looked up from, and leads to the last of the names.
pub proof fn law_paths_have_their_names(letter: char, names: Seq<Seq<char>>, by: Seq<char>)
    requires
        is_letter(letter),
        names.len() > 0,
        by.len() == names.len(),
        are_names(names),
        are_separators(by),
    ensures
        ({
            let s = seq![letter, ':'] + strung(names, by);
            &&& self::names(s) == names
            &&& absolute(s)
            &&& names.last() != seq!['.', '.'] ==> file_name(s) == Some(names.last())
        }),
{
    let s = seq![letter, ':'] + strung(names, by);
    lemma_strung(letter, names, by);
    lemma_drive_path(s, letter);
    assert(names.last() != seq!['.']);
}

proof fn lemma_drive_path(s: Seq<char>, letter: char)
    requires
        s.len() >= 3,
        is_letter(letter),
        s[0] == letter && s[1] == ':',
        s[2] == '\\' || s[2] == '/',
    ensures
        prefix_len(s) == 2,
        root_len(s) == 1,
        body_start(s) == 3,
        !is_verbatim(s),
        absolute(s),
        names(s) == names_from(s, 3, false),
{
}

proof fn lemma_strung(letter: char, names: Seq<Seq<char>>, by: Seq<char>)
    requires
        is_letter(letter),
        names.len() > 0,
        by.len() >= names.len(),
        are_names(names),
        are_separators(by),
    ensures
        ({
            let s = seq![letter, ':'] + strung(names, by);
            &&& s.len() > 3
            &&& s[0] == letter && s[1] == ':' && s[2] == by[0]
            &&& names_from(s, 3, false) == names
        }),
    decreases names.len(),
{
    let s = seq![letter, ':'] + strung(names, by);
    let last = names.last();
    let fewer = names.drop_last();
    assert(last == names[names.len() - 1]);
    assert(by[names.len() - 1] == '\\' || by[names.len() - 1] == '/');
    if names.len() == 1 {
        assert(strung(fewer, by) =~= Seq::empty());
        assert(s =~= seq![letter, ':', by[0]] + last);
        assert forall|i: int| 3 <= i < s.len() implies #[trigger] s[i] != '\\' && s[i] != '/' by {
            assert(s[i] == last[i - 3]);
            assert(last.contains(last[i - 3]));
        }
        lemma_separator_is(s, 3, s.len() as int);
        assert(s.subrange(3, s.len() as int) =~= last);
        assert(names_from(s, 3, false) =~= names);
    } else {
        assert forall|k: int| 0 <= k < fewer.len() implies (#[trigger] fewer[k]).len() > 0
            && fewer[k] != seq!['.'] && !fewer[k].contains('\\') && !fewer[k].contains('/') by {
            assert(fewer[k] == names[k]);
        }
        lemma_strung(letter, fewer, by);
        let t = seq![letter, ':'] + strung(fewer, by);
        let c = by[names.len() - 1];
        assert(s =~= t.push(c) + last);
        lemma_names_behind(t, c, last, 3);
        assert(names_from(t, 3, false).push(last) =~= names);
    }
}

/// A name looked up from a directory on a drive lies in it: its path is that of the directory, a
/// separator and the name, and has one name more.
pub proof fn law_names_lie_in_their_directory(base: Seq<char>, name: Seq<char>)
    requires
        base.len() >= 3,
        is_letter(base[0]) && base[1] == ':' && (base[2] == '\\' || base[2] == '/'),
        base.last() != '\\' && base.last() != '/',
        name.len() > 0 && name != seq!['.'] && !name.contains('\\') && !name.contains('/')
            && !name.contains(':'),
    ensures
        joined(base, name) == base + seq!['\\'] + name,
        names(joined(base, name)) == names(base).push(name),
        name != seq!['.', '.'] ==> file_name(joined(base, name)) == Some(name),
{
    let s = base.push('\\') + name;
    assert(s =~= base + seq!['\\'] + name);
    assert(name.contains(name[0]));
    if name.len() > 1 {
        assert(name.contains(name[1]));
    }
    assert(!has_drive(name) && !is_verbatim(name) && !has_device(name) && !has_share(name));
    assert(prefix_len(name) == 0);
    lemma_drive_path(base, base[0]);
    assert(s[0] == base[0] && s[1] == base[1] && s[2] == base[2]);
    lemma_drive_path(s, base[0]);
    lemma_names_behind(base, '\\', name, 3);
    assert(names(s).last() == name);
}

/// A path that does not depend on where it is looked up from stays as it is.
pub proof fn law_absolute_paths_stay(base: Seq<char>, tail: Seq<char>)
    requires
        absolute(tail),
    ensures
        joined(base, tail) == tail,
{
}

/// The names from a position on begin with the one that starts next.
proof fn lemma_names_at(s: Seq<char>, i: int, v: bool)
    requires
        0 <= i <= s.len(),
    ensures
        ({
            let a = name_start(s, i, v);
            let c = next_separator(s, a, v);
            &&& i <= a <= s.len()
            &&& a >= s.len() ==> names_from(s, i, v).len() == 0
            &&& a < s.len() ==> a < c <= s.len() && name_start(s, a, v) == a && names_from(s, i, v)
                == seq![s.subrange(a, c)] + names_from(s, c, v)
        }),
    decreases s.len() - i,
{
    lemma_name_start(s, i, v);
    lemma_next_separator(s, i, v);
    let end = next_separator(s, i, v);
    let name = s.subrange(i, end);
    if i == s.len() {
        assert(name.len() == 0);
    } else if is_name(name, v) {
        lemma_stops_at(s, i, v);
        lemma_behind_a_name(s, end, v);
    } else if end < s.len() {
        lemma_names_at(s, end + 1, v);
    }
}

proof fn lemma_stops_at(s: Seq<char>, from: int, v: bool)
    requires
        0 <= from <= s.len(),
    ensures
        next_separator(s, from, v) < s.len() ==> parts(s[next_separator(s, from, v)], v),
    decreases s.len() - from,
{
    if from < s.len() && !parts(s[from], v) {
        lemma_stops_at(s, from + 1, v);
    }
}

/// Where a separator stands, or the end, the names go on behind it.
proof fn lemma_behind_a_name(s: Seq<char>, c: int, v: bool)
    requires
        0 <= c <= s.len(),
        c < s.len() ==> parts(s[c], v),
    ensures
        names_from(s, c, v) == (if c < s.len() {
            names_from(s, c + 1, v)
        } else {
            Seq::empty()
        }),
{
    lemma_next_separator(s, c, v);
    assert(s.subrange(c, c).len() == 0);
}

proof fn lemma_passed_names(s: Seq<char>, i: int, root: Seq<char>, j: int)
    requires
        0 <= i <= s.len(),
        0 <= j <= root.len(),
    ensures
        ({
            let v = is_verbatim(s);
            let w = is_verbatim(root);
            match passed(s, i, root, j) {
                Some(at) => 0 <= at <= s.len() && names_from(s, i, v) == names_from(root, j, w)
                    + names_from(s, at, v),
                None => !names_from(root, j, w).is_prefix_of(names_from(s, i, v)),
            }
        }),
    decreases root.len() - j,
{
    let v = is_verbatim(s);
    let w = is_verbatim(root);
    let a = name_start(s, i, v);
    let b = name_start(root, j, w);
    lemma_names_at(s, i, v);
    lemma_names_at(root, j, w);
    let mine = names_from(s, i, v);
    let known = names_from(root, j, w);
    if b >= root.len() {
        lemma_names_at(s, a, v);
        assert(known =~= Seq::empty());
        assert(mine =~= known + names_from(s, a, v));
    } else if a >= s.len() {
        assert(known.len() > 0 && mine.len() == 0);
    } else {
        let c = next_separator(s, a, v);
        let d = next_separator(root, b, w);
        if s.subrange(a, c) == root.subrange(b, d) {
            lemma_passed_names(s, c, root, d);
            match passed(s, c, root, d) {
                Some(at) => {
                    assert(mine =~= known + names_from(s, at, v));
                },
                None => {
                    let x = names_from(root, d, w);
                    let y = names_from(s, c, v);
                    if known.is_prefix_of(mine) {
                        assert(x =~= known.subrange(1, known.len() as int));
                        assert(y =~= mine.subrange(1, mine.len() as int));
                        assert forall|k: int| 0 <= k < x.len() implies x[k] == y[k] by {
                            assert(known[k + 1] == mine.subrange(0, known.len() as int)[k + 1]);
                        }
                        assert(y.subrange(0, x.len() as int) =~= x);
                        assert(x.is_prefix_of(y));
                    }
                },
            }
        } else {
            if known.is_prefix_of(mine) {
                assert(known[0] == mine.subrange(0, known.len() as int)[0]);
            }
        }
    }
}

/// A path lies below another exactly where both begin alike, on the same drive or share, and the
/// names of the other are the first of its names; what is spelled differently, but means the same,
/// makes no difference.
pub proof fn law_below_goes_by_names(s: Seq<char>, root: Seq<char>)
    requires
        root.len() > 0,
        rooted(root),
        rooted(s),
        dotted(s) == dotted(root),
    ensures
        below(s, root) is Some <==> spelled_prefix(s) == spelled_prefix(root) && names(
            root,
        ).is_prefix_of(names(s)),
{
    lemma_prefix_len(s);
    lemma_prefix_len(root);
    lemma_passed_names(s, body_start(s), root, body_start(root));
    if let Some(at) = passed(s, body_start(s), root, body_start(root)) {
        let known = names(root);
        assert(names(s).subrange(0, known.len() as int) =~= known);
    }
}

/// A drive path begins the same whether the letter of the drive is a capital or not, and its names
/// are separated by backslashes whatever stood between them: paths that mean the same are spelled
/// the same.
pub proof fn law_paths_are_spelled_alike(
    letter: char,
    large: char,
    names: Seq<Seq<char>>,
    by: Seq<char>,
)
    requires
        'A' <= large <= 'Z',
        letter == large || letter as int == large as int + 32,
        names.len() > 0,
        by.len() == names.len(),
        are_names(names),
        are_separators(by),
    ensures
        spelled(seq![letter, ':'] + strung(names, by)) == seq![large, ':', '\\'] + text::joined(
            names,
            seq!['\\'],
        ),
{
    let s = seq![letter, ':'] + strung(names, by);
    lemma_strung(letter, names, by);
    lemma_drive_path(s, letter);
    let c = letter as u8;
    let d = large as u8;
    assert(capital(letter) == large) by {
        if letter != large {
            assert(c - 32 == d);
        }
    }
    assert(spelled(s) =~= seq![large, ':', '\\'] + text::joined(names, seq!['\\']));
}

proof fn lemma_shared_start(s: Seq<char>, root: Seq<char>, j: int)
    requires
        0 <= j <= root.len() < s.len(),
        s.take(root.len() as int) == root,
        s[root.len() as int] == '\\' || s[root.len() as int] == '/',
    ensures
        ({
            let b = name_start(root, j, false);
            &&& b < root.len() ==> name_start(s, j, false) == b && next_separator(s, b, false)
                == next_separator(root, b, false) && s.subrange(
                b,
                next_separator(root, b, false),
            ) == root.subrange(b, next_separator(root, b, false))
            &&& b >= root.len() ==> name_start(s, j, false) == name_start(
                s,
                root.len() as int + 1,
                false,
            )
        }),
    decreases root.len() - j,
{
    let n = root.len() as int;
    lemma_next_separator(root, j, false);
    lemma_separator_at(root, j);
    let end = next_separator(root, j, false);
    assert forall|k: int| 0 <= k < n implies #[trigger] s[k] == root[k] by {
        assert(s.take(n)[k] == s[k]);
    }
    lemma_separator_is(s, j, end);
    assert(s.subrange(j, end) =~= root.subrange(j, end));
    if j < n && !is_name(root.subrange(j, end), false) && end < n {
        lemma_shared_start(s, root, end + 1);
    }
}

proof fn lemma_shared_passed(s: Seq<char>, root: Seq<char>, j: int)
    requires
        0 <= j <= root.len() < s.len(),
        s.take(root.len() as int) == root,
        s[root.len() as int] == '\\' || s[root.len() as int] == '/',
        !is_verbatim(s),
        !is_verbatim(root),
    ensures
        passed(s, j, root, j) == Some(name_start(s, root.len() as int + 1, false)),
    decreases root.len() - j,
{
    lemma_shared_start(s, root, j);
    lemma_name_start(root, j, false);
    let b = name_start(root, j, false);
    if b < root.len() {
        lemma_shared_passed(s, root, next_separator(root, b, false));
    }
}

proof fn lemma_ends_with_name(s: Seq<char>, from: int, m: int)
    requires
        0 <= from <= m < s.len(),
        from < m ==> s[m - 1] == '\\' || s[m - 1] == '/',
        forall|i: int| m <= i < s.len() ==> #[trigger] s[i] != '\\' && s[i] != '/',
        s.subrange(m, s.len() as int) != seq!['.'],
    ensures
        name_start(s, from, false) <= m,
        names_end(s, from, false) == s.len(),
    decreases s.len() - from,
{
    let n = s.len() as int;
    lemma_next_separator(s, from, false);
    lemma_separator_at(s, from);
    lemma_separator_is(s, m, n);
    let end = next_separator(s, from, false);
    lemma_name_start(s, from, false);
    if from < m {
        assert(end <= m - 1);
        lemma_ends_with_name(s, end + 1, m);
        if is_name(s.subrange(from, end), false) {
            let next = end;
            assert(s.subrange(next, next).len() == 0);
            assert(next_separator(s, next, false) == next);
            assert(name_start(s, next, false) == name_start(s, next + 1, false));
            assert(names_end(s, next, false) == names_end(s, next + 1, false));
        } else {
            assert(name_start(s, from, false) == name_start(s, end + 1, false));
            assert(names_end(s, from, false) == names_end(s, end + 1, false));
        }
    } else {
        assert(end == n);
        assert(names_end(s, n, false) == n);
    }
}

/// What lies in a directory on a drive lies below it under its own name, and below no other one
/// there.
pub proof fn law_names_lie_below_their_directory(base: Seq<char>, name: Seq<char>, other: Seq<char>)
    requires
        base.len() > 3,
        is_letter(base[0]) && base[1] == ':' && (base[2] == '\\' || base[2] == '/'),
        base.last() != '\\' && base.last() != '/',
        name.len() > 0 && name != seq!['.'] && !name.contains('\\') && !name.contains('/'),
        other.len() > 0 && other != seq!['.'] && !other.contains('\\') && !other.contains('/'),
    ensures
        below(base + seq!['\\'] + name, base) == Some(name),
        other != name ==> below(base + seq!['\\'] + name, base + seq!['\\'] + other) is None,
{
    let s = base + seq!['\\'] + name;
    let t = base + seq!['\\'] + other;
    let n = base.len() as int;
    assert(s =~= base.push('\\') + name);
    assert(t =~= base.push('\\') + other);
    lemma_drive_path(base, base[0]);
    lemma_drive_path(s, base[0]);
    lemma_drive_path(t, base[0]);
    assert(s.take(n) =~= base);
    assert(s[n] == '\\');
    lemma_shared_passed(s, base, 3);
    assert forall|i: int| n + 1 <= i < s.len() implies #[trigger] s[i] != '\\' && s[i] != '/' by {
        assert(s[i] == name[i - n - 1]);
        assert(name.contains(name[i - n - 1]));
    }
    assert(s.subrange(n + 1, s.len() as int) =~= name);
    lemma_separator_is(s, n + 1, s.len() as int);
    assert(name_start(s, n + 1, false) == n + 1);
    lemma_ends_with_name(s, 3, n + 1);
    assert(path_end(s) == s.len());
    assert(spelled_prefix(s) == spelled_prefix(base));
    assert(s.subrange(n + 1, path_end(s)) =~= name);
    if other != name {
        lemma_names_behind(base, '\\', name, 3);
        lemma_names_behind(base, '\\', other, 3);
        assert(spelled_prefix(s) == spelled_prefix(t));
        let k = names(base).len() as int;
        if names(t).is_prefix_of(names(s)) {
            assert(names(t)[k] == names(s).subrange(0, k + 1)[k]);
        }
        law_below_goes_by_names(s, t);
    }
}

} // verus!

