//! Text as sequences of characters: trimming, splitting, searching, comparing, and decimal
//! numbers. Every function here is stated over `Seq<char>`, the view of `String` and `str`.

use vstd::prelude::*;

verus! {

/// `String::push` appends one character.
pub assume_specification[ String::push ](s: &mut String, c: char)
    ensures
        final(s)@ == old(s)@.push(c),
;

// ---------------------------------------------------------------- conversions

/// The characters of `text`, in order.
pub fn chars_of(text: &str) -> (chars: Vec<char>)
    ensures
        chars@ == text@,
{
    let mut chars: Vec<char> = Vec::new();
    for c in iter: text.chars()
        invariant
            chars@ == iter.seq().take(iter.index() as int),
            iter.seq() == text@,
    {
        chars.push(c);
    }
    chars
}

/// The characters `from..to` of `chars` as a `String`.
pub fn string_from(chars: &Vec<char>, from: usize, to: usize) -> (text: String)
    requires
        from <= to <= chars@.len(),
    ensures
        text@ == chars@.subrange(from as int, to as int),
{
    let mut text: String = String::new();
    let mut i: usize = from;
    while i < to
        invariant
            from <= i <= to <= chars@.len(),
            text@ == chars@.subrange(from as int, i as int),
        decreases to - i,
    {
        text.push(chars[i]);
        i += 1;
        assert(chars@.subrange(from as int, i as int) =~= chars@.subrange(
            from as int,
            i - 1,
        ).push(chars@[i - 1]));
    }
    text
}

/// All of `chars` as a `String`.
pub fn string_of(chars: &Vec<char>) -> (text: String)
    ensures
        text@ == chars@,
{
    let text = string_from(chars, 0, chars.len());
    assert(chars@.subrange(0, chars@.len() as int) =~= chars@);
    text
}

/// `a` followed by `b`.
pub fn join2(a: &str, b: &str) -> (text: String)
    ensures
        text@ == a@ + b@,
{
    let mut text = a.to_owned();
    text.append(b);
    text
}

/// `a`, `b` and `c` one after the other.
pub fn join3(a: &str, b: &str, c: &str) -> (text: String)
    ensures
        text@ == a@ + b@ + c@,
{
    let mut text = a.to_owned();
    text.append(b);
    text.append(c);
    text
}

/// Whether two texts hold the same characters.
pub fn same(a: &str, b: &str) -> (r: bool)
    ensures
        r == (a@ == b@),
{
    a.to_owned() == b.to_owned()
}

// ---------------------------------------------------------------- white space

/// The characters that Unicode calls white space.
pub open spec fn is_space(c: char) -> bool {
    ||| '\u{9}' <= c <= '\u{d}'
    ||| c == ' '
    ||| c == '\u{85}'
    ||| c == '\u{a0}'
    ||| c == '\u{1680}'
    ||| '\u{2000}' <= c <= '\u{200a}'
    ||| c == '\u{2028}'
    ||| c == '\u{2029}'
    ||| c == '\u{202f}'
    ||| c == '\u{205f}'
    ||| c == '\u{3000}'
}

pub fn space(c: char) -> (r: bool)
    ensures
        r == is_space(c),
{
    ('\u{9}' <= c && c <= '\u{d}') || c == ' ' || c == '\u{85}' || c == '\u{a0}' || c == '\u{1680}'
        || ('\u{2000}' <= c && c <= '\u{200a}') || c == '\u{2028}' || c == '\u{2029}' || c
        == '\u{202f}' || c == '\u{205f}' || c == '\u{3000}'
}

/// `s` without its leading white space.
pub open spec fn trim_start(s: Seq<char>) -> Seq<char>
    decreases s.len(),
{
    if s.len() > 0 && is_space(s[0]) {
        trim_start(s.subrange(1, s.len() as int))
    } else {
        s
    }
}

/// `s` without its trailing white space.
pub open spec fn trim_end(s: Seq<char>) -> Seq<char>
    decreases s.len(),
{
    if s.len() > 0 && is_space(s[s.len() - 1]) {
        trim_end(s.subrange(0, s.len() - 1))
    } else {
        s
    }
}

/// `s` without white space at either end.
pub open spec fn trim(s: Seq<char>) -> Seq<char> {
    trim_end(trim_start(s))
}

proof fn lemma_trim_start_at(s: Seq<char>, i: int)
    requires
        0 <= i <= s.len(),
        forall|j: int| 0 <= j < i ==> is_space(#[trigger] s[j]),
        i < s.len() ==> !is_space(s[i]),
    ensures
        trim_start(s) == s.subrange(i, s.len() as int),
    decreases i,
{
    if i == 0 {
        assert(s.subrange(0, s.len() as int) =~= s);
    } else {
        let t = s.subrange(1, s.len() as int);
        assert forall|j: int| 0 <= j < i - 1 implies is_space(#[trigger] t[j]) by {
            assert(t[j] == s[j + 1]);
        }
        lemma_trim_start_at(t, i - 1);
        assert(t.subrange(i - 1, t.len() as int) =~= s.subrange(i, s.len() as int));
    }
}

proof fn lemma_trim_end_at(s: Seq<char>, i: int)
    requires
        0 <= i <= s.len(),
        forall|j: int| i <= j < s.len() ==> is_space(#[trigger] s[j]),
        i > 0 ==> !is_space(s[i - 1]),
    ensures
        trim_end(s) == s.subrange(0, i),
    decreases s.len() - i,
{
    if i == s.len() {
        assert(s.subrange(0, i) =~= s);
    } else {
        let t = s.subrange(0, s.len() - 1);
        assert forall|j: int| i <= j < t.len() implies is_space(#[trigger] t[j]) by {
            assert(t[j] == s[j]);
        }
        lemma_trim_end_at(t, i);
        assert(t.subrange(0, i) =~= s.subrange(0, i));
    }
}

proof fn lemma_trim_start_head(s: Seq<char>)
    ensures
        trim_start(s).len() > 0 ==> !is_space(trim_start(s)[0]),
        trim_start(s).len() <= s.len(),
    decreases s.len(),
{
    if s.len() > 0 && is_space(s[0]) {
        lemma_trim_start_head(s.subrange(1, s.len() as int));
    }
}

proof fn lemma_trim_end_ends(s: Seq<char>)
    ensures
        trim_end(s).len() > 0 ==> !is_space(trim_end(s)[trim_end(s).len() - 1]) && trim_end(s)[0]
            == s[0],
        trim_end(s).len() <= s.len(),
    decreases s.len(),
{
    if s.len() > 0 && is_space(s[s.len() - 1]) {
        lemma_trim_end_ends(s.subrange(0, s.len() - 1));
    }
}

/// What has been trimmed has nothing left to trim.
pub proof fn lemma_trim_twice(s: Seq<char>)
    ensures
        trim(trim(s)) == trim(s),
{
    lemma_trim_start_head(s);
    lemma_trim_end_ends(trim_start(s));
}

/// `text` without white space at either end.
pub fn trimmed(text: &str) -> (r: String)
    ensures
        r@ == trim(text@),
{
    let chars = chars_of(text);
    let mut i: usize = 0;
    while i < chars.len() && space(chars[i])
        invariant
            i <= chars@.len(),
            forall|j: int| 0 <= j < i ==> is_space(#[trigger] chars@[j]),
        decreases chars@.len() - i,
    {
        i += 1;
    }
    proof {
        lemma_trim_start_at(chars@, i as int);
    }
    let ghost rest = chars@.subrange(i as int, chars@.len() as int);
    let mut k: usize = chars.len();
    while k > i && space(chars[k - 1])
        invariant
            i <= k <= chars@.len(),
            rest == chars@.subrange(i as int, chars@.len() as int),
            forall|j: int| k - i <= j < rest.len() ==> is_space(#[trigger] rest[j]),
        decreases k,
    {
        k -= 1;
        assert(rest[k - i] == chars@[k as int]);
    }
    proof {
        if k > i {
            assert(rest[k - i - 1] == chars@[k - 1]);
        }
        lemma_trim_end_at(rest, k - i);
        assert(rest.subrange(0, k - i) =~= chars@.subrange(i as int, k as int));
    }
    string_from(&chars, i, k)
}

/// Whether `text` holds nothing but white space.
pub fn blank(text: &str) -> (r: bool)
    ensures
        r == (trim(text@).len() == 0),
{
    let t = trimmed(text);
    t.as_str().is_empty()
}

/// `s` without the trailing characters that are `a` or `b`.
pub open spec fn strip_end(s: Seq<char>, a: char, b: char) -> Seq<char>
    decreases s.len(),
{
    if s.len() > 0 && (s[s.len() - 1] == a || s[s.len() - 1] == b) {
        strip_end(s.subrange(0, s.len() - 1), a, b)
    } else {
        s
    }
}

/// `s` without the leading characters that are `a` or `b`.
pub open spec fn strip_start(s: Seq<char>, a: char, b: char) -> Seq<char>
    decreases s.len(),
{
    if s.len() > 0 && (s[0] == a || s[0] == b) {
        strip_start(s.subrange(1, s.len() as int), a, b)
    } else {
        s
    }
}

/// `text` without the trailing characters that are `a` or `b`.
pub fn stripped_end(text: &str, a: char, b: char) -> (r: String)
    ensures
        r@ == strip_end(text@, a, b),
{
    let chars = chars_of(text);
    let mut k: usize = chars.len();
    assert(chars@.subrange(0, k as int) =~= chars@);
    while k > 0 && (chars[k - 1] == a || chars[k - 1] == b)
        invariant
            k <= chars@.len(),
            strip_end(chars@, a, b) == strip_end(chars@.subrange(0, k as int), a, b),
        decreases k,
    {
        k -= 1;
        assert(chars@.subrange(0, k + 1).subrange(0, k as int) =~= chars@.subrange(0, k as int));
    }
    string_from(&chars, 0, k)
}

/// `text` without the leading characters that are `a` or `b`.
pub fn stripped_start(text: &str, a: char, b: char) -> (r: String)
    ensures
        r@ == strip_start(text@, a, b),
{
    let chars = chars_of(text);
    let mut k: usize = 0;
    assert(chars@.subrange(0, chars@.len() as int) =~= chars@);
    while k < chars.len() && (chars[k] == a || chars[k] == b)
        invariant
            k <= chars@.len(),
            strip_start(chars@, a, b) == strip_start(
                chars@.subrange(k as int, chars@.len() as int),
                a,
                b,
            ),
        decreases chars@.len() - k,
    {
        let ghost t = chars@.subrange(k as int, chars@.len() as int);
        assert(t.subrange(1, t.len() as int) =~= chars@.subrange(k + 1, chars@.len() as int));
        k += 1;
    }
    string_from(&chars, k, chars.len())
}

// ---------------------------------------------------------------- words

/// The position of the first white space in `s`, or the length.
pub open spec fn space_index(s: Seq<char>) -> int
    decreases s.len(),
{
    if s.len() == 0 || is_space(s[0]) {
        0
    } else {
        1 + space_index(after(s, 1))
    }
}

/// The first word of `s`: what stands before white space, white space before it left out.
pub open spec fn first_word(s: Seq<char>) -> Seq<char> {
    trim_start(s).subrange(0, space_index(trim_start(s)))
}

/// What follows the first word of `s`.
pub open spec fn after_word(s: Seq<char>) -> Seq<char> {
    after(trim_start(s), space_index(trim_start(s)))
}

/// The first white space is the first of its places.
pub proof fn lemma_space_index_at(s: Seq<char>, i: int)
    requires
        0 <= i <= s.len(),
        i < s.len() ==> is_space(s[i]),
        forall|j: int| 0 <= j < i ==> !is_space(#[trigger] s[j]),
    ensures
        space_index(s) == i,
    decreases i,
{
    if i > 0 {
        let t = after(s, 1);
        assert(!is_space(s[0]));
        assert forall|j: int| 0 <= j < i - 1 implies !is_space(#[trigger] t[j]) by {
            assert(t[j] == s[j + 1]);
        }
        lemma_space_index_at(t, i - 1);
    }
}

/// The first word of `text`, and what follows it.
pub fn split_word(text: &str) -> (r: (String, String))
    ensures
        r.0@ == first_word(text@),
        r.1@ == after_word(text@),
{
    let s = chars_of(text);
    let mut i: usize = 0;
    while i < s.len() && space(s[i])
        invariant
            i <= s@.len(),
            forall|j: int| 0 <= j < i ==> is_space(#[trigger] s@[j]),
        decreases s@.len() - i,
    {
        i += 1;
    }
    proof {
        lemma_trim_start_at(s@, i as int);
    }
    let ghost t = s@.subrange(i as int, s@.len() as int);
    let mut k: usize = i;
    while k < s.len() && !space(s[k])
        invariant
            i <= k <= s@.len(),
            t == s@.subrange(i as int, s@.len() as int),
            forall|j: int| 0 <= j < k - i ==> !is_space(#[trigger] t[j]),
        decreases s@.len() - k,
    {
        assert(t[k - i] == s@[k as int]);
        k += 1;
    }
    proof {
        if k < s.len() {
            assert(t[k - i] == s@[k as int]);
        }
        lemma_space_index_at(t, k - i);
        assert(t.subrange(0, k - i) =~= s@.subrange(i as int, k as int));
        assert(after(t, k - i) =~= s@.subrange(k as int, s@.len() as int));
    }
    (string_from(&s, i, k), string_from(&s, k, s.len()))
}

// ---------------------------------------------------------------- prefixes and substrings

/// `s` begins with `p`.
pub open spec fn begins(s: Seq<char>, p: Seq<char>) -> bool {
    p.len() <= s.len() && s.subrange(0, p.len() as int) == p
}

/// `s` ends with `p`.
pub open spec fn ends(s: Seq<char>, p: Seq<char>) -> bool {
    p.len() <= s.len() && s.subrange(s.len() - p.len(), s.len() as int) == p
}

/// `p` occurs in `s` at position `i`.
pub open spec fn occurs_at(s: Seq<char>, p: Seq<char>, i: int) -> bool {
    0 <= i && i + p.len() <= s.len() && s.subrange(i, i + p.len()) == p
}

/// `p` occurs somewhere in `s`.
pub open spec fn occurs(s: Seq<char>, p: Seq<char>) -> bool {
    exists|i: int| occurs_at(s, p, i)
}

/// `s` after its first `n` characters.
pub open spec fn after(s: Seq<char>, n: int) -> Seq<char> {
    s.subrange(n, s.len() as int)
}

/// Whether `p` occurs in `s` at position `i`.
pub fn occurs_here(s: &Vec<char>, p: &Vec<char>, i: usize) -> (r: bool)
    ensures
        r == occurs_at(s@, p@, i as int),
{
    if i > s.len() || s.len() - i < p.len() {
        return false;
    }
    let mut k: usize = 0;
    while k < p.len()
        invariant
            i + p@.len() <= s.len(),
            k <= p@.len(),
            forall|j: int| 0 <= j < k ==> s@[i + j] == #[trigger] p@[j],
        decreases p@.len() - k,
    {
        if s[i + k] != p[k] {
            assert(s@.subrange(i as int, i + p@.len())[k as int] != p@[k as int]);
            return false;
        }
        k += 1;
    }
    assert(s@.subrange(i as int, i + p@.len()) =~= p@);
    true
}

/// Whether `text` begins with `prefix`.
pub fn has_prefix(text: &str, prefix: &str) -> (r: bool)
    ensures
        r == begins(text@, prefix@),
{
    let s = chars_of(text);
    let p = chars_of(prefix);
    occurs_here(&s, &p, 0)
}

/// What follows `prefix` in `text`, if `text` begins with it.
pub fn without_prefix(text: &str, prefix: &str) -> (r: Option<String>)
    ensures
        match r {
            Some(rest) => begins(text@, prefix@) && rest@ == after(text@, prefix@.len() as int),
            None => !begins(text@, prefix@),
        },
{
    let s = chars_of(text);
    let p = chars_of(prefix);
    if occurs_here(&s, &p, 0) {
        Some(string_from(&s, p.len(), s.len()))
    } else {
        None
    }
}

/// The first position at which `p` occurs in `s`, or -1.
pub open spec fn first_at(s: Seq<char>, p: Seq<char>, from: int) -> int
    decreases s.len() - from + 1,
{
    if from + p.len() > s.len() || from < 0 {
        -1
    } else if occurs_at(s, p, from) {
        from
    } else {
        first_at(s, p, from + 1)
    }
}

/// `first_at` finds an occurrence, finds the least one, and fails only where there is none.
pub proof fn lemma_first_at(s: Seq<char>, p: Seq<char>, from: int)
    requires
        0 <= from,
    ensures
        first_at(s, p, from) >= 0 ==> occurs_at(s, p, first_at(s, p, from)) && first_at(s, p, from)
            >= from,
        first_at(s, p, from) < 0 ==> first_at(s, p, from) == -1,
        forall|i: int|
            from <= i && (first_at(s, p, from) < 0 || i < first_at(s, p, from)) ==> !occurs_at(
                s,
                p,
                i,
            ),
    decreases s.len() - from + 1,
{
    if from + p.len() > s.len() {
    } else if occurs_at(s, p, from) {
    } else {
        lemma_first_at(s, p, from + 1);
    }
}

/// The first position from `from` on at which `p` occurs in `s`.
pub fn find_from(s: &Vec<char>, p: &Vec<char>, from: usize) -> (r: Option<usize>)
    ensures
        match r {
            Some(i) => first_at(s@, p@, from as int) == i && occurs_at(s@, p@, i as int),
            None => first_at(s@, p@, from as int) == -1,
        },
{
    let mut i: usize = from;
    if from > s.len() {
        return None;
    }
    while i <= s.len() && s.len() - i >= p.len()
        invariant
            from <= i <= s@.len() + 1,
            i == s@.len() + 1 ==> p@.len() == 0 || i + p@.len() > s@.len(),
            first_at(s@, p@, from as int) == first_at(s@, p@, i as int),
        decreases s@.len() + 1 - i,
    {
        if occurs_here(s, p, i) {
            return Some(i);
        }
        if i == s.len() {
            proof {
                assert(first_at(s@, p@, i + 1) == -1);
            }
            return None;
        }
        i += 1;
    }
    None
}

/// Whether `part` occurs in `text`.
pub fn contains(text: &str, part: &str) -> (r: bool)
    ensures
        r == occurs(text@, part@),
{
    let s = chars_of(text);
    let p = chars_of(part);
    proof {
        lemma_first_at(s@, p@, 0);
    }
    find_from(&s, &p, 0).is_some()
}

// ---------------------------------------------------------------- splitting

/// The position of the first `c` in `s`, or `s.len()`.
pub open spec fn index_of(s: Seq<char>, c: char) -> int
    decreases s.len(),
{
    if s.len() == 0 || s[0] == c {
        0
    } else {
        1 + index_of(after(s, 1), c)
    }
}

/// `index_of` lies in range, hits `c` unless it is the length, and nothing before it is `c`.
pub proof fn lemma_index_of(s: Seq<char>, c: char)
    ensures
        0 <= index_of(s, c) <= s.len(),
        index_of(s, c) < s.len() ==> s[index_of(s, c)] == c,
        forall|j: int| 0 <= j < index_of(s, c) ==> #[trigger] s[j] != c,
    decreases s.len(),
{
    if s.len() == 0 || s[0] == c {
    } else {
        let t = after(s, 1);
        lemma_index_of(t, c);
        assert forall|j: int| 0 <= j < index_of(s, c) implies #[trigger] s[j] != c by {
            if j > 0 {
                assert(s[j] == t[j - 1]);
            }
        }
    }
}

/// The first place with `c` is the first of its places.
pub proof fn lemma_index_of_is(s: Seq<char>, c: char, i: int)
    requires
        0 <= i <= s.len(),
        i < s.len() ==> s[i] == c,
        forall|j: int| 0 <= j < i ==> #[trigger] s[j] != c,
    ensures
        index_of(s, c) == i,
{
    lemma_index_of(s, c);
    let k = index_of(s, c);
    if k < i {
        assert(s[k] != c);
    }
    if i < k {
        assert(s[i] != c);
    }
}

/// The position of the first `c` from `from` on, or the length.
pub fn find_char(s: &Vec<char>, c: char, from: usize) -> (r: usize)
    requires
        from <= s@.len(),
    ensures
        from <= r <= s@.len(),
        r == from + index_of(after(s@, from as int), c),
        r < s@.len() ==> s@[r as int] == c,
        forall|j: int| from <= j < r ==> #[trigger] s@[j] != c,
{
    let mut i: usize = from;
    while i < s.len() && s[i] != c
        invariant
            from <= i <= s@.len(),
            forall|j: int| from <= j < i ==> #[trigger] s@[j] != c,
        decreases s@.len() - i,
    {
        i += 1;
    }
    proof {
        lemma_index_of_is(after(s@, from as int), c, i - from);
    }
    i
}

/// What stands before the first `c` in `s`, or all of it.
pub open spec fn up_to(s: Seq<char>, c: char) -> Seq<char> {
    s.subrange(0, index_of(s, c))
}

/// What stands before the first `c` in `text`, or all of it.
pub fn before_char(text: &str, c: char) -> (r: String)
    ensures
        r@ == up_to(text@, c),
{
    let s = chars_of(text);
    let i = find_char(&s, c, 0);
    assert(after(s@, 0) =~= s@);
    string_from(&s, 0, i)
}

/// `s` cut at every `c`: one more piece than there are `c`s.
pub open spec fn split(s: Seq<char>, c: char) -> Seq<Seq<char>>
    decreases s.len(),
{
    let i = index_of(s, c);
    if 0 <= i < s.len() {
        seq![s.subrange(0, i)] + split(after(s, i + 1), c)
    } else {
        seq![s]
    }
}

/// The views of the texts in `v`.
pub open spec fn views(v: Seq<String>) -> Seq<Seq<char>> {
    Seq::new(v.len(), |i: int| v[i]@)
}

/// `text` cut at every `c`.
pub fn pieces(text: &str, c: char) -> (r: Vec<String>)
    ensures
        views(r@) == split(text@, c),
        r@.len() > 0,
{
    let s = chars_of(text);
    let mut out: Vec<String> = Vec::new();
    let mut start: usize = 0;
    assert(after(s@, 0) =~= s@);
    loop
        invariant_except_break
            start <= s@.len(),
            split(s@, c) == views(out@) + split(after(s@, start as int), c),
        ensures
            views(out@) == split(s@, c),
            out@.len() > 0,
        decreases s@.len() - start + 1,
    {
        let end = find_char(&s, c, start);
        let ghost rest = after(s@, start as int);
        let piece = string_from(&s, start, end);
        let ghost before = out@;
        out.push(piece);
        assert(views(out@) =~= views(before).push(piece@));
        assert(rest.subrange(0, end - start) =~= s@.subrange(start as int, end as int));
        if end == s.len() {
            assert(rest =~= s@.subrange(start as int, end as int));
            assert(views(out@) =~= split(s@, c));
            break;
        }
        assert(after(rest, end - start + 1) =~= after(s@, end + 1));
        assert(views(before) + split(rest, c) =~= views(out@) + split(after(s@, end + 1), c));
        start = end + 1;
    }
    out
}

/// A line without its line feed: a carriage return just before the line feed goes with it.
pub open spec fn chomp(s: Seq<char>) -> Seq<char> {
    if s.len() > 0 && s[s.len() - 1] == '\r' {
        s.subrange(0, s.len() - 1)
    } else {
        s
    }
}

/// The lines of `s`: what stands before each line feed, and what follows the last one unless
/// nothing does.
pub open spec fn lines(s: Seq<char>) -> Seq<Seq<char>>
    decreases s.len(),
{
    let i = index_of(s, '\n');
    if s.len() == 0 {
        Seq::empty()
    } else if 0 <= i < s.len() {
        seq![chomp(s.subrange(0, i))] + lines(after(s, i + 1))
    } else {
        seq![s]
    }
}

/// The lines of `text`.
pub fn lines_of(text: &str) -> (r: Vec<String>)
    ensures
        views(r@) == lines(text@),
{
    let s = chars_of(text);
    let mut out: Vec<String> = Vec::new();
    let mut start: usize = 0;
    assert(after(s@, 0) =~= s@);
    assert(lines(s@) =~= views(out@) + lines(after(s@, 0)));
    while start < s.len()
        invariant
            start <= s@.len(),
            lines(s@) == views(out@) + lines(after(s@, start as int)),
        decreases s@.len() - start,
    {
        let end = find_char(&s, '\n', start);
        let ghost rest = after(s@, start as int);
        let ghost before = out@;
        assert(rest.subrange(0, end - start) =~= s@.subrange(start as int, end as int));
        if end == s.len() {
            let piece = string_from(&s, start, end);
            out.push(piece);
            assert(views(out@) =~= views(before).push(piece@));
            assert(rest =~= s@.subrange(start as int, end as int));
            assert(lines(rest) =~= seq![rest]);
            assert(after(s@, end as int) =~= Seq::empty());
            assert(views(before) + lines(rest) =~= views(out@) + lines(after(s@, end as int)));
            start = end;
        } else {
            let stop = if end > start && s[end - 1] == '\r' {
                end - 1
            } else {
                end
            };
            let piece = string_from(&s, start, stop);
            assert(piece@ =~= chomp(rest.subrange(0, end - start)));
            out.push(piece);
            assert(views(out@) =~= views(before).push(piece@));
            assert(after(rest, end - start + 1) =~= after(s@, end + 1));
            assert(views(before) + lines(rest) =~= views(out@) + lines(after(s@, end + 1)));
            start = end + 1;
        }
    }
    assert(after(s@, start as int) =~= Seq::empty());
    assert(views(out@) + lines(after(s@, start as int)) =~= views(out@));
    out
}

// ---------------------------------------------------------------- joining

/// The texts in `s` with `sep` between neighbours.
pub open spec fn joined(s: Seq<Seq<char>>, sep: Seq<char>) -> Seq<char>
    decreases s.len(),
{
    if s.len() == 0 {
        Seq::empty()
    } else if s.len() == 1 {
        s[0]
    } else {
        joined(s.subrange(0, s.len() - 1), sep) + sep + s[s.len() - 1]
    }
}

/// The texts in `parts` with `sep` between neighbours.
pub fn join_with(parts: &Vec<String>, sep: &str) -> (r: String)
    ensures
        r@ == joined(views(parts@), sep@),
{
    let mut out: String = String::new();
    let mut i: usize = 0;
    while i < parts.len()
        invariant
            i <= parts@.len(),
            out@ == joined(views(parts@).subrange(0, i as int), sep@),
        decreases parts@.len() - i,
    {
        let ghost head = views(parts@).subrange(0, i as int);
        let ghost next = views(parts@).subrange(0, i + 1);
        assert(next.subrange(0, i as int) =~= head);
        if i > 0 {
            out.append(sep);
        }
        out.append(parts[i].as_str());
        assert(out@ =~= joined(next, sep@));
        i += 1;
    }
    assert(views(parts@).subrange(0, i as int) =~= views(parts@));
    out
}

// ---------------------------------------------------------------- ASCII case

/// `c` with an ASCII capital turned into its small letter.
pub open spec fn ascii_lower(c: char) -> char {
    if 'A' <= c <= 'Z' {
        ((c as u8) + 32) as char
    } else {
        c
    }
}

/// `a` and `b` differ at most in the case of ASCII letters.
pub open spec fn same_ascii(a: Seq<char>, b: Seq<char>) -> bool {
    a.len() == b.len() && forall|i: int|
        0 <= i < a.len() ==> ascii_lower(#[trigger] a[i]) == ascii_lower(b[i])
}

pub fn lower_ascii(c: char) -> (r: char)
    ensures
        r == ascii_lower(c),
{
    if 'A' <= c && c <= 'Z' {
        ((c as u8) + 32) as char
    } else {
        c
    }
}

/// Whether `a` and `b` differ at most in the case of ASCII letters.
pub fn equal_ignoring_case(a: &str, b: &str) -> (r: bool)
    ensures
        r == same_ascii(a@, b@),
{
    let x = chars_of(a);
    let y = chars_of(b);
    if x.len() != y.len() {
        return false;
    }
    let mut i: usize = 0;
    while i < x.len()
        invariant
            x@ == a@,
            y@ == b@,
            x@.len() == y@.len(),
            i <= x@.len(),
            forall|j: int| 0 <= j < i ==> ascii_lower(#[trigger] x@[j]) == ascii_lower(y@[j]),
        decreases x@.len() - i,
    {
        if lower_ascii(x[i]) != lower_ascii(y[i]) {
            return false;
        }
        i += 1;
    }
    true
}

// ---------------------------------------------------------------- small letters

/// The text that `str::to_lowercase` makes of a text.
pub uninterp spec fn lowercase(s: Seq<char>) -> Seq<char>;

/// `str::to_lowercase`. Its tables are Unicode's and are not spelled out here.
#[verifier::external_body]
pub(crate) fn lowered(s: &str) -> (r: String)
    ensures
        r@ == lowercase(s@),
{
    s.to_lowercase()
}

// ---------------------------------------------------------------- order

/// `a` comes before `b` in the order of their characters' code points.
pub open spec fn before(a: Seq<char>, b: Seq<char>) -> bool
    decreases a.len(),
{
    if b.len() == 0 {
        false
    } else if a.len() == 0 {
        true
    } else if a[0] != b[0] {
        a[0] < b[0]
    } else {
        before(after(a, 1), after(b, 1))
    }
}

/// Two texts of which neither comes before the other are the same.
pub proof fn lemma_before_total(a: Seq<char>, b: Seq<char>)
    ensures
        before(a, b) || before(b, a) || a == b,
        !(before(a, b) && before(b, a)),
        !before(a, a),
    decreases a.len(),
{
    if a.len() > 0 {
        lemma_before_total(after(a, 1), after(a, 1));
    }
    if a.len() > 0 && b.len() > 0 && a[0] == b[0] {
        lemma_before_total(after(a, 1), after(b, 1));
        if after(a, 1) == after(b, 1) {
            assert(a =~= seq![a[0]] + after(a, 1));
            assert(b =~= seq![b[0]] + after(b, 1));
        }
    } else if a.len() == 0 && b.len() == 0 {
        assert(a =~= b);
    }
}

pub proof fn lemma_before_transitive(a: Seq<char>, b: Seq<char>, c: Seq<char>)
    requires
        before(a, b),
        before(b, c),
    ensures
        before(a, c),
    decreases a.len(),
{
    if a.len() > 0 && b.len() > 0 && c.len() > 0 && a[0] == b[0] && b[0] == c[0] {
        lemma_before_transitive(after(a, 1), after(b, 1), after(c, 1));
    }
}

/// Whether `a` comes before `b` in the order of their characters' code points.
pub fn comes_before(a: &str, b: &str) -> (r: bool)
    ensures
        r == before(a@, b@),
{
    let x = chars_of(a);
    let y = chars_of(b);
    let mut i: usize = 0;
    assert(after(x@, 0) =~= x@);
    assert(after(y@, 0) =~= y@);
    while i < x.len() && i < y.len()
        invariant
            x@ == a@,
            y@ == b@,
            i <= x@.len(),
            i <= y@.len(),
            before(x@, y@) == before(after(x@, i as int), after(y@, i as int)),
        decreases x@.len() - i,
    {
        let ghost p = after(x@, i as int);
        let ghost q = after(y@, i as int);
        if x[i] != y[i] {
            return x[i] < y[i];
        }
        assert(after(p, 1) =~= after(x@, i + 1));
        assert(after(q, 1) =~= after(y@, i + 1));
        i += 1;
    }
    i < y.len()
}

// ---------------------------------------------------------------- numbers

/// The decimal digit of `d`.
pub open spec fn digit(d: int) -> char {
    (48 + d) as char
}

/// `n` in decimal, without leading zeros.
pub open spec fn decimal(n: int) -> Seq<char>
    decreases n,
{
    if n < 10 {
        seq![digit(n)]
    } else {
        decimal(n / 10).push(digit(n % 10))
    }
}

/// `n` in decimal, with a minus sign where it is negative.
pub open spec fn signed(n: int) -> Seq<char> {
    if n < 0 {
        seq!['-'] + decimal(-n)
    } else {
        decimal(n)
    }
}

/// `n` zeros.
pub open spec fn zeros(n: int) -> Seq<char> {
    Seq::new(if n > 0 { n as nat } else { 0 }, |i: int| '0')
}

/// `n` in decimal, filled up with leading zeros to `width` digits.
pub open spec fn padded(n: int, width: int) -> Seq<char> {
    zeros(width - decimal(n).len()) + decimal(n)
}

/// Two digits are told apart by the numbers that they stand for.
pub proof fn lemma_padded_two(n: int)
    requires
        0 <= n < 100,
    ensures
        padded(n, 2) == seq![digit(n / 10), digit(n % 10)],
{
    reveal_with_fuel(decimal, 2);
    assert(padded(n, 2) =~= seq![digit(n / 10), digit(n % 10)]);
}

/// Four digits are told apart by the numbers that they stand for.
pub proof fn lemma_padded_four(n: int)
    requires
        0 <= n < 10000,
    ensures
        padded(n, 4) == seq![
            digit(n / 1000),
            digit(n / 100 % 10),
            digit(n / 10 % 10),
            digit(n % 10),
        ],
{
    reveal_with_fuel(decimal, 4);
    assert(n / 10 / 10 == n / 100);
    assert(n / 100 / 10 == n / 1000);
    assert(padded(n, 4) =~= seq![
        digit(n / 1000),
        digit(n / 100 % 10),
        digit(n / 10 % 10),
        digit(n % 10),
    ]);
}

/// No two digits look the same.
pub proof fn lemma_digits_differ(a: int, b: int)
    requires
        0 <= a < 10,
        0 <= b < 10,
        digit(a) == digit(b),
    ensures
        a == b,
{
    assert(digit(a) as int == 48 + a);
    assert(digit(b) as int == 48 + b);
}

fn digit_of(d: u64) -> (c: char)
    requires
        d < 10,
    ensures
        c == digit(d as int),
{
    (48u8 + (d as u8)) as char
}

/// `n` in decimal.
pub fn number(n: u64) -> (r: String)
    ensures
        r@ == decimal(n as int),
    decreases n,
{
    let mut r = if n < 10 {
        String::new()
    } else {
        number(n / 10)
    };
    r.push(digit_of(n % 10));
    assert(r@ =~= decimal(n as int));
    r
}

/// `n` in decimal.
pub fn count(n: usize) -> (r: String)
    ensures
        r@ == decimal(n as int),
{
    number(n as u64)
}

/// `n` in decimal, filled up with leading zeros to `width` digits.
pub fn zero_filled(n: u64, width: usize) -> (r: String)
    ensures
        r@ == padded(n as int, width as int),
{
    let digits = number(n);
    let len = digits.as_str().unicode_len();
    let mut r: String = String::new();
    let mut k: usize = len;
    while k < width
        invariant
            len <= k,
            k <= width || k == len,
            len == digits@.len(),
            r@ == zeros(k - len),
        decreases width - k,
    {
        r.push('0');
        k += 1;
        assert(r@ =~= zeros(k - len));
    }
    r.append(digits.as_str());
    assert(r@ =~= padded(n as int, width as int));
    r
}

/// `n` in decimal, with a minus sign where it is negative.
pub fn integer(n: i64) -> (r: String)
    ensures
        r@ == signed(n as int),
{
    if n >= 0 {
        number(n as u64)
    } else {
        let mut r: String = String::new();
        r.push('-');
        let digits = number((-(n + 1)) as u64 + 1);
        r.append(digits.as_str());
        assert(r@ =~= signed(n as int));
        r
    }
}

// ---------------------------------------------------------------- numbers in text

/// `s` consists of decimal digits, at least one.
pub open spec fn all_digits(s: Seq<char>) -> bool {
    s.len() > 0 && forall|i: int| 0 <= i < s.len() ==> '0' <= #[trigger] s[i] <= '9'
}

/// The number that decimal digits stand for.
pub open spec fn digits_value(s: Seq<char>) -> int
    decreases s.len(),
{
    if s.len() == 0 {
        0
    } else {
        digits_value(s.drop_last()) * 10 + (s.last() as int - 48)
    }
}

/// The integer that a text stands for: digits, at most with a sign before them.
pub open spec fn integer_in(s: Seq<char>) -> Option<int> {
    if s.len() > 0 && (s[0] == '+' || s[0] == '-') {
        if all_digits(after(s, 1)) {
            Some(
                if s[0] == '-' {
                    -digits_value(after(s, 1))
                } else {
                    digits_value(after(s, 1))
                },
            )
        } else {
            None
        }
    } else if all_digits(s) {
        Some(digits_value(s))
    } else {
        None
    }
}

proof fn lemma_zeros_value(z: int)
    requires
        0 <= z,
    ensures
        digits_value(zeros(z)) == 0,
    decreases z,
{
    if z > 0 {
        lemma_zeros_value(z - 1);
        assert(zeros(z).drop_last() =~= zeros(z - 1));
    }
}

proof fn lemma_filled_value(z: int, n: int)
    requires
        0 <= z,
        0 <= n,
    ensures
        digits_value(zeros(z) + decimal(n)) == n,
        all_digits(zeros(z) + decimal(n)),
    decreases n,
{
    let s = zeros(z) + decimal(n);
    assert(digit(n % 10) as int == 48 + n % 10);
    if n < 10 {
        assert(s.drop_last() =~= zeros(z));
        lemma_zeros_value(z);
    } else {
        lemma_filled_value(z, n / 10);
        let t = zeros(z) + decimal(n / 10);
        assert(s.drop_last() =~= t);
        assert(s =~= t.push(digit(n % 10)));
    }
}

/// Filled up with zeros, a number still stands for itself.
pub proof fn lemma_padded_value(n: int, width: int)
    requires
        0 <= n,
    ensures
        digits_value(padded(n, width)) == n,
        all_digits(padded(n, width)),
{
    let z = width - decimal(n).len();
    if z > 0 {
        lemma_filled_value(z, n);
    } else {
        lemma_filled_value(0, n);
        assert(padded(n, width) =~= zeros(0) + decimal(n));
    }
}

proof fn lemma_digits_prefix(s: Seq<char>, k: int)
    requires
        all_digits(s),
        0 <= k <= s.len(),
    ensures
        0 <= digits_value(s.take(k)) <= digits_value(s),
    decreases s.len() - k,
{
    if k == s.len() {
        assert(s.take(k) =~= s);
        lemma_digits_nonneg(s);
    } else {
        lemma_digits_prefix(s, k + 1);
        assert(s.take(k + 1).drop_last() =~= s.take(k));
        lemma_digits_nonneg(s.take(k));
    }
}

proof fn lemma_digits_nonneg(s: Seq<char>)
    requires
        forall|i: int| 0 <= i < s.len() ==> '0' <= #[trigger] s[i] <= '9',
    ensures
        digits_value(s) >= 0,
    decreases s.len(),
{
    if s.len() > 0 {
        let t = s.drop_last();
        assert forall|i: int| 0 <= i < t.len() implies '0' <= #[trigger] t[i] <= '9' by {
            assert(t[i] == s[i]);
        }
        lemma_digits_nonneg(t);
    }
}

/// The integer that a text stands for, where it lies in `low..=high`.
pub fn parse_integer(text: &str, low: i64, high: i64) -> (r: Option<i64>)
    requires
        low <= 0 <= high,
    ensures
        match r {
            Some(n) => integer_in(text@) == Some(n as int) && low <= n <= high,
            None => match integer_in(text@) {
                Some(n) => !(low <= n <= high),
                None => true,
            },
        },
{
    let s = chars_of(text);
    let signed = s.len() > 0 && (s[0] == '+' || s[0] == '-');
    let negative = s.len() > 0 && s[0] == '-';
    let start: usize = if signed {
        1
    } else {
        0
    };
    let ghost body = after(s@, start as int);
    assert(start == 0 ==> body =~= s@);
    let limit: i128 = if negative {
        -(low as i128)
    } else {
        high as i128
    };
    if s.len() == start {
        return None;
    }
    let mut i: usize = start;
    while i < s.len()
        invariant
            start <= i <= s.len(),
            s@ == text@,
            signed == (s@.len() > 0 && (s@[0] == '+' || s@[0] == '-')),
            start == (if signed { 1int } else { 0 }),
            start == 0 ==> body == s@,
            body == after(s@, start as int),
            forall|j: int| 0 <= j < i - start ==> '0' <= #[trigger] body[j] <= '9',
        decreases s.len() - i,
    {
        assert(body[i - start] == s@[i as int]);
        if !('0' <= s[i] && s[i] <= '9') {
            return None;
        }
        i += 1;
    }
    assert(all_digits(body));
    let mut value: i128 = 0;
    let mut k: usize = start;
    while k < s.len()
        invariant
            start <= k <= s.len(),
            body == after(s@, start as int),
            all_digits(body),
            0 <= limit <= 0x8000_0000_0000_0000,
            value == digits_value(body.take(k - start)),
            0 <= value <= limit,
            s@ == text@,
            signed == (s@.len() > 0 && (s@[0] == '+' || s@[0] == '-')),
            negative == (s@.len() > 0 && s@[0] == '-'),
            start == (if signed { 1int } else { 0 }),
            limit == (if negative { -low } else { high as int }),
            low <= 0 <= high,
            start == 0 ==> body == s@,
        decreases s.len() - k,
    {
        proof {
            assert(body[k - start] == s@[k as int]);
            assert(body.take(k - start + 1).drop_last() =~= body.take(k - start));
            assert(body.take(k - start + 1).last() == s@[k as int]);
            lemma_digits_prefix(body, k - start + 1);
        }
        let d: i128 = (s[k] as u32 - 48) as i128;
        if d > limit || value > (limit - d) / 10 {
            assert(value * 10 + d > limit);
            return None;
        }
        value = value * 10 + d;
        k += 1;
    }
    assert(body.take(k - start) =~= body);
    if negative {
        Some((-value) as i64)
    } else {
        Some(value as i64)
    }
}

// ---------------------------------------------------------------- lists

/// Whether `list` holds `t`.
pub fn holds(list: &Vec<String>, t: &str) -> (r: bool)
    ensures
        r == views(list@).contains(t@),
{
    let mut i: usize = 0;
    while i < list.len()
        invariant
            i <= list.len(),
            forall|j: int| 0 <= j < i ==> (#[trigger] views(list@)[j]) != t@,
        decreases list.len() - i,
    {
        assert(views(list@)[i as int] == list@[i as int]@);
        if same(list[i].as_str(), t) {
            return true;
        }
        i += 1;
    }
    false
}

/// What follows the last `c` in `s`; all of `s` where there is none.
pub open spec fn after_last(s: Seq<char>, c: char) -> Seq<char>
    decreases s.len(),
{
    if s.len() == 0 || s.last() == c {
        Seq::empty()
    } else {
        after_last(s.drop_last(), c).push(s.last())
    }
}

/// What follows the last `c` in `text`; all of `text` where there is none.
pub fn behind_last(text: &str, c: char) -> (r: String)
    ensures
        r@ == after_last(text@, c),
{
    let s = chars_of(text);
    let mut i: usize = s.len();
    assert(s@.subrange(i as int, s@.len() as int) =~= Seq::empty());
    assert(s@.take(i as int) =~= s@);
    assert(after_last(s@, c) + Seq::<char>::empty() =~= after_last(s@, c));
    while i > 0 && s[i - 1] != c
        invariant
            i <= s.len(),
            after_last(s@, c) == after_last(s@.take(i as int), c) + s@.subrange(
                i as int,
                s@.len() as int,
            ),
        decreases i,
    {
        let ghost head = s@.take(i as int);
        assert(head.drop_last() =~= s@.take(i - 1));
        assert(s@.subrange(i - 1, s@.len() as int) =~= seq![s@[i - 1]] + s@.subrange(
            i as int,
            s@.len() as int,
        ));
        assert(after_last(head, c) + s@.subrange(i as int, s@.len() as int) =~= after_last(
            s@.take(i - 1),
            c,
        ) + s@.subrange(i - 1, s@.len() as int));
        i -= 1;
    }
    assert(after_last(s@.take(i as int), c) =~= Seq::empty());
    string_from(&s, i, s.len())
}

// ---------------------------------------------------------------- bytes

/// How many bytes a character takes in UTF-8.
pub open spec fn width(c: char) -> int {
    if c <= '\u{7f}' {
        1
    } else if c <= '\u{7ff}' {
        2
    } else if c <= '\u{ffff}' {
        3
    } else {
        4
    }
}

/// How many bytes a text takes in UTF-8.
pub open spec fn size(s: Seq<char>) -> int
    decreases s.len(),
{
    if s.len() == 0 {
        0
    } else {
        size(s.drop_last()) + width(s.last())
    }
}

/// How many characters of `s` make up its first `n` bytes; none where byte `n` lies inside a
/// character or beyond the end.
pub open spec fn chars_in_bytes(s: Seq<char>, n: int) -> Option<int>
    decreases s.len(),
{
    if n == 0 {
        Some(0)
    } else if s.len() == 0 || n < width(s[0]) {
        None
    } else {
        match chars_in_bytes(after(s, 1), n - width(s[0])) {
            Some(k) => Some(k + 1),
            None => None,
        }
    }
}

/// The first `n` bytes of `s`, where they are whole characters.
pub open spec fn byte_prefix(s: Seq<char>, n: int) -> Option<Seq<char>> {
    match chars_in_bytes(s, n) {
        Some(k) => Some(s.subrange(0, k)),
        None => None,
    }
}

/// What follows the first `n` bytes of `s`, where they are whole characters.
pub open spec fn byte_suffix(s: Seq<char>, n: int) -> Option<Seq<char>> {
    match chars_in_bytes(s, n) {
        Some(k) => Some(after(s, k)),
        None => None,
    }
}

/// The sizes of two texts add up.
pub proof fn lemma_size_add(a: Seq<char>, b: Seq<char>)
    ensures
        size(a + b) == size(a) + size(b),
        size(a) >= 0,
        size(b) >= 0,
    decreases b.len(),
{
    lemma_size_positive(a);
    lemma_size_positive(b);
    if b.len() == 0 {
        assert(a + b =~= a);
    } else {
        assert((a + b).drop_last() =~= a + b.drop_last());
        lemma_size_add(a, b.drop_last());
    }
}

proof fn lemma_size_positive(s: Seq<char>)
    ensures
        size(s) >= 0,
    decreases s.len(),
{
    if s.len() > 0 {
        lemma_size_positive(s.drop_last());
    }
}

proof fn lemma_size_encoded(s: Seq<char>)
    ensures
        vstd::utf8::encode_utf8(s).len() == size(s),
    decreases s.len(),
{
    if s.len() > 0 {
        let rest = s.drop_first();
        vstd::utf8::char_is_scalar(s[0]);
        vstd::utf8::char_u32_cast(s[0], s[0] as u32);
        assert(vstd::utf8::encode_scalar(s[0] as u32).len() == width(s[0]));
        lemma_size_encoded(rest);
        assert(s =~= seq![s[0]] + rest);
        lemma_size_add(seq![s[0]], rest);
        assert(seq![s[0]].drop_last() =~= Seq::empty());
        assert(size(Seq::<char>::empty()) == 0);
        assert(size(seq![s[0]]) == width(s[0]));
    }
}

/// The characters of the first `n` bytes take `n` bytes.
pub proof fn lemma_chars_in_bytes_size(s: Seq<char>, n: int)
    requires
        chars_in_bytes(s, n) is Some,
    ensures
        0 <= chars_in_bytes(s, n)->0 <= s.len(),
        size(s.take(chars_in_bytes(s, n)->0)) == n,
    decreases s.len(),
{
    let k = chars_in_bytes(s, n)->0;
    if n == 0 {
        assert(s.take(0) =~= Seq::empty());
    } else {
        let rest = after(s, 1);
        lemma_chars_in_bytes_size(rest, n - width(s[0]));
        assert(s.take(k) =~= seq![s[0]] + rest.take(k - 1));
        lemma_size_add(seq![s[0]], rest.take(k - 1));
        assert(seq![s[0]].drop_last() =~= Seq::empty());
        assert(size(Seq::<char>::empty()) == 0);
        assert(size(seq![s[0]]) == width(s[0]));
    }
}

/// How many bytes a text takes in UTF-8.
pub fn byte_len(text: &str) -> (r: usize)
    ensures
        r == size(text@),
{
    proof {
        lemma_size_encoded(text@);
    }
    text.as_bytes().len()
}

/// How many bytes a character takes in UTF-8.
pub fn char_width(c: char) -> (r: usize)
    ensures
        r == width(c),
        1 <= r <= 4,
{
    if c <= '\u{7f}' {
        1
    } else if c <= '\u{7ff}' {
        2
    } else if c <= '\u{ffff}' {
        3
    } else {
        4
    }
}

/// How many characters from position `from` on make up `n` bytes.
pub fn count_chars(s: &Vec<char>, from: usize, n: usize) -> (r: Option<usize>)
    requires
        from <= s.len(),
    ensures
        match r {
            Some(k) => chars_in_bytes(after(s@, from as int), n as int) == Some(k as int) && from
                + k <= s.len(),
            None => chars_in_bytes(after(s@, from as int), n as int) is None,
        },
{
    let mut left: usize = n;
    let mut k: usize = 0;
    let ghost whole = after(s@, from as int);
    while left > 0
        invariant
            from + k <= s.len(),
            whole == after(s@, from as int),
            match chars_in_bytes(after(s@, from + k), left as int) {
                Some(m) => chars_in_bytes(whole, n as int) == Some(m + k),
                None => chars_in_bytes(whole, n as int) is None,
            },
        decreases left,
    {
        let ghost rest = after(s@, from + k);
        if from + k == s.len() {
            return None;
        }
        assert(rest[0] == s@[from + k]);
        let w = char_width(s[from + k]);
        if left < w {
            return None;
        }
        assert(after(rest, 1) =~= after(s@, from + k + 1));
        left -= w;
        k += 1;
    }
    Some(k)
}

/// The first `n` bytes of `text`, where they are whole characters.
pub fn first_bytes(text: &str, n: usize) -> (r: Option<String>)
    ensures
        match r {
            Some(t) => byte_prefix(text@, n as int) == Some(t@),
            None => byte_prefix(text@, n as int) is None,
        },
{
    let s = chars_of(text);
    assert(after(s@, 0) =~= s@);
    match count_chars(&s, 0, n) {
        Some(k) => Some(string_from(&s, 0, k)),
        None => None,
    }
}

/// What follows the first `n` bytes of `text`, where they are whole characters.
pub fn after_bytes(text: &str, n: usize) -> (r: Option<String>)
    ensures
        match r {
            Some(t) => byte_suffix(text@, n as int) == Some(t@),
            None => byte_suffix(text@, n as int) is None,
        },
{
    let s = chars_of(text);
    assert(after(s@, 0) =~= s@);
    match count_chars(&s, 0, n) {
        Some(k) => Some(string_from(&s, k, s.len())),
        None => None,
    }
}

// ---------------------------------------------------------------- laws

proof fn lemma_trim_start_cut(s: Seq<char>) -> (i: int)
    ensures
        0 <= i <= s.len(),
        trim_start(s) == s.subrange(i, s.len() as int),
        forall|j: int| 0 <= j < i ==> is_space(#[trigger] s[j]),
        i < s.len() ==> !is_space(s[i]),
    decreases s.len(),
{
    if s.len() > 0 && is_space(s[0]) {
        let t = s.subrange(1, s.len() as int);
        let i = lemma_trim_start_cut(t);
        assert forall|j: int| 0 <= j < i + 1 implies is_space(#[trigger] s[j]) by {
            if j > 0 {
                assert(s[j] == t[j - 1]);
            }
        }
        assert(t.subrange(i, t.len() as int) =~= s.subrange(i + 1, s.len() as int));
        i + 1
    } else {
        assert(s.subrange(0, s.len() as int) =~= s);
        0
    }
}

proof fn lemma_trim_end_cut(s: Seq<char>) -> (i: int)
    ensures
        0 <= i <= s.len(),
        trim_end(s) == s.subrange(0, i),
        forall|j: int| i <= j < s.len() ==> is_space(#[trigger] s[j]),
        i > 0 ==> !is_space(s[i - 1]),
    decreases s.len(),
{
    if s.len() > 0 && is_space(s[s.len() - 1]) {
        let t = s.subrange(0, s.len() - 1);
        let i = lemma_trim_end_cut(t);
        assert forall|j: int| i <= j < s.len() implies is_space(#[trigger] s[j]) by {
            if j < t.len() {
                assert(s[j] == t[j]);
            }
        }
        assert(t.subrange(0, i) =~= s.subrange(0, i));
        i
    } else {
        assert(s.subrange(0, s.len() as int) =~= s);
        s.len() as int
    }
}

/// Trimming cuts white space off both ends, all of it there and nothing else.
pub proof fn law_trimming_cuts_white_space(s: Seq<char>) -> (cut: (int, int))
    ensures
        0 <= cut.0 <= cut.1 <= s.len(),
        trim(s) == s.subrange(cut.0, cut.1),
        forall|j: int| 0 <= j < cut.0 || cut.1 <= j < s.len() ==> is_space(#[trigger] s[j]),
        cut.0 < cut.1 ==> !is_space(s[cut.0]) && !is_space(s[cut.1 - 1]),
{
    let i = lemma_trim_start_cut(s);
    let t = trim_start(s);
    let k = lemma_trim_end_cut(t);
    assert(t.subrange(0, k) =~= s.subrange(i, i + k));
    assert forall|j: int| 0 <= j < i || i + k <= j < s.len() implies is_space(#[trigger] s[j]) by {
        if j >= i {
            assert(t[j - i] == s[j]);
        }
    }
    if k > 0 {
        assert(t[0] == s[i]);
        assert(t[k - 1] == s[i + k - 1]);
        assert(!is_space(t[k - 1]));
    }
    (i, i + k)
}

/// The lines in `parts`, each with a line feed behind it.
pub open spec fn fed(parts: Seq<Seq<char>>) -> Seq<char>
    decreases parts.len(),
{
    if parts.len() == 0 {
        Seq::empty()
    } else {
        parts[0] + seq!['\n'] + fed(parts.skip(1))
    }
}

/// What was written line by line is read line by line, also where a carriage return stands before
/// the line feeds. A last line may go without.
pub proof fn law_lines_read_back(parts: Seq<Seq<char>>, last: Seq<char>)
    requires
        forall|k: int| 0 <= k < parts.len() ==> !(#[trigger] parts[k]).contains('\n'),
        !last.contains('\n'),
    ensures
        lines(fed(parts) + last) == parts.map_values(|line: Seq<char>| chomp(line)) + if last.len()
            > 0 {
            seq![last]
        } else {
            Seq::empty()
        },
    decreases parts.len(),
{
    let bare = |line: Seq<char>| chomp(line);
    let s = fed(parts) + last;
    if parts.len() == 0 {
        assert(s =~= last);
        lemma_index_of(last, '\n');
        if index_of(last, '\n') < last.len() {
            assert(last[index_of(last, '\n')] == '\n');
        }
        assert(lines(s) =~= parts.map_values(bare) + if last.len() > 0 {
            seq![last]
        } else {
            Seq::empty()
        });
    } else {
        let rest = parts.skip(1);
        let first = parts[0];
        assert forall|k: int| 0 <= k < rest.len() implies !(#[trigger] rest[k]).contains(
            '\n',
        ) by {
            assert(rest[k] == parts[k + 1]);
        }
        law_lines_read_back(rest, last);
        assert(s =~= first + seq!['\n'] + (fed(rest) + last));
        let n = first.len() as int;
        assert(s[n] == '\n');
        assert forall|j: int| 0 <= j < n implies #[trigger] s[j] != '\n' by {
            assert(s[j] == first[j]);
            assert(first.contains(first[j]));
        }
        lemma_index_of_is(s, '\n', n);
        assert(s.subrange(0, n) =~= first);
        assert(after(s, n + 1) =~= fed(rest) + last);
        assert(lines(s) =~= parts.map_values(bare) + if last.len() > 0 {
            seq![last]
        } else {
            Seq::empty()
        });
    }
}

/// A line loses the carriage return that it ends with, and nothing else.
pub proof fn law_lines_lose_one_carriage_return(line: Seq<char>)
    ensures
        chomp(line + seq!['\r']) == line,
        line.len() == 0 || line.last() != '\r' ==> chomp(line) == line,
{
    assert((line + seq!['\r']).subrange(0, line.len() as int) =~= line);
}

/// Pieces put together again with what they were cut at make up the text, and it stands in none of
/// them.
pub proof fn law_pieces_join_again(s: Seq<char>, c: char)
    ensures
        split(s, c).len() > 0,
        glued(split(s, c), c) == s,
        forall|k: int| 0 <= k < split(s, c).len() ==> !(#[trigger] split(s, c)[k]).contains(c),
    decreases s.len(),
{
    lemma_index_of(s, c);
    let i = index_of(s, c);
    let all = split(s, c);
    if i < s.len() {
        let rest = after(s, i + 1);
        law_pieces_join_again(rest, c);
        assert(all.skip(1) =~= split(rest, c));
        assert(all[0] == s.subrange(0, i));
        assert(glued(all, c) =~= s);
        assert forall|k: int| 0 <= k < all.len() implies !(#[trigger] all[k]).contains(c) by {
            if k > 0 {
                assert(all[k] == split(rest, c)[k - 1]);
            } else if all[0].contains(c) {
                let j = choose|j: int| 0 <= j < all[0].len() && all[0][j] == c;
                assert(s[j] == c);
            }
        }
    } else {
        assert(all[0] == s);
        if s.contains(c) {
            let j = choose|j: int| 0 <= j < s.len() && s[j] == c;
            assert(s[j] != c);
        }
    }
}

/// The texts in `parts` with `c` between neighbours.
pub open spec fn glued(parts: Seq<Seq<char>>, c: char) -> Seq<char>
    decreases parts.len(),
{
    if parts.len() == 0 {
        Seq::empty()
    } else if parts.len() == 1 {
        parts[0]
    } else {
        parts[0] + seq![c] + glued(parts.skip(1), c)
    }
}

/// What follows the last of a character is what stands behind it.
pub proof fn law_after_the_last(front: Seq<char>, c: char, back: Seq<char>)
    requires
        !back.contains(c),
    ensures
        after_last(front + seq![c] + back, c) == back,
        after_last(back, c) == back,
    decreases back.len(),
{
    let s = front + seq![c] + back;
    if back.len() == 0 {
        assert(s.last() == c);
        assert(after_last(s, c) =~= back);
        assert(after_last(back, c) =~= back);
    } else {
        let less = back.drop_last();
        assert forall|x: char| less.contains(x) implies back.contains(x) by {
            let j = choose|j: int| 0 <= j < less.len() && less[j] == x;
            assert(back[j] == x);
        }
        law_after_the_last(front, c, less);
        assert(back.contains(back[back.len() - 1]));
        assert(s.drop_last() =~= front + seq![c] + less);
        assert(s.last() == back.last());
        assert(less.push(back.last()) =~= back);
    }
}

/// A text comes before another where it is a part of it that the other goes on behind, or where it
/// has the smaller character at the first place where they differ.
pub proof fn law_order_of_texts(a: Seq<char>, b: Seq<char>)
    ensures
        before(a, b) <==> exists|k: int|
            #![trigger a.take(k)]
            0 <= k <= a.len() && k < b.len() && a.take(k) == b.take(k) && (k == a.len() || a[k]
                < b[k]),
    decreases a.len(),
{
    let ahead = |k: int|
        0 <= k <= a.len() && k < b.len() && a.take(k) == b.take(k) && (k == a.len() || a[k]
            < b[k]);
    if a.len() > 0 && b.len() > 0 && a[0] == b[0] {
        let x = after(a, 1);
        let y = after(b, 1);
        law_order_of_texts(x, y);
        if before(a, b) {
            let k = choose|k: int|
                #![trigger x.take(k)]
                0 <= k <= x.len() && k < y.len() && x.take(k) == y.take(k) && (k == x.len()
                    || x[k] < y[k]);
            assert(a.take(k + 1) =~= seq![a[0]] + x.take(k));
            assert(b.take(k + 1) =~= seq![b[0]] + y.take(k));
            assert(ahead(k + 1));
        }
        if exists|k: int|
            #![trigger a.take(k)]
            0 <= k <= a.len() && k < b.len() && a.take(k) == b.take(k) && (k == a.len() || a[k]
                < b[k]) {
            let k = choose|k: int|
                #![trigger a.take(k)]
                0 <= k <= a.len() && k < b.len() && a.take(k) == b.take(k) && (k == a.len()
                    || a[k] < b[k]);
            assert(k > 0);
            assert(x.take(k - 1) =~= a.take(k).skip(1));
            assert(y.take(k - 1) =~= b.take(k).skip(1));
        }
    } else {
        if b.len() > 0 {
            assert(a.take(0) =~= b.take(0));
            if before(a, b) {
                assert(ahead(0));
            }
        }
        if exists|k: int|
            #![trigger a.take(k)]
            0 <= k <= a.len() && k < b.len() && a.take(k) == b.take(k) && (k == a.len() || a[k]
                < b[k]) {
            let k = choose|k: int|
                #![trigger a.take(k)]
                0 <= k <= a.len() && k < b.len() && a.take(k) == b.take(k) && (k == a.len()
                    || a[k] < b[k]);
            if k > 0 {
                assert(a.take(k)[0] == b.take(k)[0]);
            }
        }
    }
}

/// A number that is written out reads as itself.
pub proof fn law_numbers_read_back(n: int)
    ensures
        integer_in(signed(n)) == Some(n),
{
    let m = if n < 0 {
        -n
    } else {
        n
    };
    lemma_padded_value(m, 0);
    assert(padded(m, 0) =~= decimal(m));
    assert('0' <= decimal(m)[0] <= '9');
    if n < 0 {
        assert(after(signed(n), 1) =~= decimal(m));
    }
}

/// A text occurs between any two others.
pub proof fn lemma_occurs_between(a: Seq<char>, s: Seq<char>, b: Seq<char>)
    ensures
        occurs(a + s + b, s),
{
    let t = a + s + b;
    let i = a.len() as int;
    assert(t.subrange(i, i + s.len()) =~= s);
    assert(occurs_at(t, s, i));
}

/// A text begins with every part that something follows, and ends with what follows it. Where it
/// begins, or ends, with a part, it is that part and a rest, and so never shorter.
pub proof fn law_texts_begin_and_end(p: Seq<char>, s: Seq<char>)
    ensures
        begins(p + s, p),
        ends(p + s, s),
        begins(s, p) ==> s == p + s.skip(p.len() as int),
        ends(s, p) ==> s == s.take(s.len() - p.len()) + p,
        s.len() < p.len() ==> !begins(s, p) && !ends(s, p),
{
    let t = p + s;
    assert(t.subrange(0, p.len() as int) =~= p);
    assert(t.subrange(t.len() - s.len(), t.len() as int) =~= s);
    if begins(s, p) {
        let front = s.subrange(0, p.len() as int);
        assert(s =~= front + s.skip(p.len() as int));
    }
    if ends(s, p) {
        let back = s.subrange(s.len() - p.len(), s.len() as int);
        assert(s =~= s.take(s.len() - p.len()) + back);
    }
}

} // verus!

