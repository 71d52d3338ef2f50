//! Searching text: plain or as a regular expression, with or without regard to case, whole words
//! or parts of words; and the pieces into which hits cut a text.

use regex::RegexBuilder;
use vstd::prelude::*;

use crate::text;

verus! {

// ---------------------------------------------------------------- what regex and std compute

/// What regex says against a pattern, with or without regard to case; nothing where it compiles.
pub uninterp spec fn pattern_error(pattern: Seq<char>, insensitive: bool) -> Option<Seq<char>>;

/// `RegexBuilder::build`: the text of its error, or none where the pattern compiles. Which patterns
/// compile is regex's grammar and is not spelled out here.
#[verifier::external_body]
fn check_pattern(pattern: &str, insensitive: bool) -> (r: Option<String>)
    ensures
        match r {
            Some(e) => pattern_error(pattern@, insensitive) == Some(e@),
            None => pattern_error(pattern@, insensitive) is None,
        },
{
    RegexBuilder::new(pattern)
        .case_insensitive(insensitive)
        .build()
        .err()
        .map(|e| e.to_string())
}

/// The spans that regex finds in a text, as byte offsets; none where the pattern does not compile.
pub uninterp spec fn pattern_spans(
    pattern: Seq<char>,
    insensitive: bool,
    text: Seq<char>,
) -> Seq<(usize, usize)>;

/// `span` starts and ends between characters of `s`.
pub open spec fn span_fits(s: Seq<char>, span: (int, int)) -> bool {
    match (text::chars_in_bytes(s, span.0), text::chars_in_bytes(s, span.1)) {
        (Some(i), Some(j)) => i <= j,
        _ => false,
    }
}

/// All of `spans` start and end between characters of `s`.
pub open spec fn spans_fit(s: Seq<char>, spans: Seq<(int, int)>) -> bool {
    forall|k: int| 0 <= k < spans.len() ==> span_fits(s, #[trigger] spans[k])
}

/// `Regex::find_iter` on each of the texts, for a pattern that is compiled once: the starts and ends
/// of its matches, which lie between characters. What a pattern matches is regex's semantics and is
/// not spelled out here.
#[verifier::external_body]
fn find_spans(pattern: &str, insensitive: bool, texts: &Vec<String>) -> (r: Vec<
    Vec<(usize, usize)>,
>)
    ensures
        r@.len() == texts@.len(),
        forall|i: int|
            0 <= i < r@.len() ==> (#[trigger] r@[i])@ == pattern_spans(
                pattern@,
                insensitive,
                texts@[i]@,
            ) && spans_fit(texts@[i]@, span_views(r@[i]@)),
{
    match RegexBuilder::new(pattern).case_insensitive(insensitive).build() {
        Ok(re) => texts
            .iter()
            .map(|t| re.find_iter(t).map(|m| (m.start(), m.end())).collect())
            .collect(),
        Err(_) => texts.iter().map(|_| Vec::new()).collect(),
    }
}

/// The characters that Unicode gives as the small form of a character.
pub uninterp spec fn lower(c: char) -> Seq<char>;

/// `char::to_lowercase`.
#[verifier::external_body]
fn small_form(c: char) -> (r: Vec<char>)
    ensures
        r@ == lower(c),
{
    c.to_lowercase().collect()
}

/// Unicode counts a character among the letters or numbers.
pub uninterp spec fn alphanumeric(c: char) -> bool;

/// `char::is_alphanumeric`.
#[verifier::external_body]
fn letter_or_number(c: char) -> (r: bool)
    ensures
        r == alphanumeric(c),
{
    c.is_alphanumeric()
}

// ---------------------------------------------------------------- words and case

/// `c` is a part of a word. Chinese characters are letters too.
pub open spec fn word_char(c: char) -> bool {
    alphanumeric(c) || c == '_'
}

pub fn is_word_char(c: char) -> (r: bool)
    ensures
        r == word_char(c),
{
    letter_or_number(c) || c == '_'
}

/// Neither what stands before `from` nor what stands at `to` is a part of a word.
pub open spec fn word_edges(s: Seq<char>, from: int, to: int) -> bool {
    !(0 < from <= s.len() && word_char(s[from - 1])) && !(0 <= to < s.len() && word_char(s[to]))
}

/// `s` with every character in its small form.
pub open spec fn folded(s: Seq<char>) -> Seq<char>
    decreases s.len(),
{
    if s.len() == 0 {
        Seq::empty()
    } else {
        folded(s.drop_last()) + lower(s.last())
    }
}

/// `a` and `b` are the same, with or without regard to case.
pub open spec fn alike(a: Seq<char>, b: Seq<char>, case: bool) -> bool {
    if case {
        a == b
    } else {
        folded(a) == folded(b)
    }
}

fn fold(s: &Vec<char>, from: usize, to: usize) -> (r: Vec<char>)
    requires
        from <= to <= s.len(),
    ensures
        r@ == folded(s@.subrange(from as int, to as int)),
{
    let mut out: Vec<char> = Vec::new();
    let mut i: usize = from;
    assert(s@.subrange(from as int, from as int) =~= Seq::empty());
    while i < to
        invariant
            from <= i <= to <= s.len(),
            out@ == folded(s@.subrange(from as int, i as int)),
        decreases to - i,
    {
        let mut small = small_form(s[i]);
        assert(s@.subrange(from as int, i + 1).drop_last() =~= s@.subrange(from as int, i as int));
        out.append(&mut small);
        i += 1;
    }
    out
}

fn same_chars(a: &Vec<char>, b: &Vec<char>) -> (r: bool)
    ensures
        r == (a@ == b@),
{
    if a.len() != b.len() {
        return false;
    }
    let mut i: usize = 0;
    while i < a.len()
        invariant
            a@.len() == b@.len(),
            i <= a.len(),
            forall|j: int| 0 <= j < i ==> a@[j] == b@[j],
        decreases a.len() - i,
    {
        if a[i] != b[i] {
            return false;
        }
        i += 1;
    }
    assert(a@ =~= b@);
    true
}

/// Whether two texts are the same, with or without regard to case. Compared character by character:
/// folding a whole text may change its length, and what is found must lie where it stands.
pub fn slice_eq(a: &str, b: &str, case: bool) -> (r: bool)
    ensures
        r == alike(a@, b@, case),
{
    let x = text::chars_of(a);
    let y = text::chars_of(b);
    if case {
        return same_chars(&x, &y);
    }
    let p = fold(&x, 0, x.len());
    let q = fold(&y, 0, y.len());
    assert(x@.subrange(0, x@.len() as int) =~= x@);
    assert(y@.subrange(0, y@.len() as int) =~= y@);
    same_chars(&p, &q)
}

// ---------------------------------------------------------------- conditions

/// What to search for.
#[derive(Debug)]
pub struct Search {
    /// What was typed, without white space around it.
    pub needle: String,
    /// Why the typed expression is no regular expression; empty where nothing is wrong.
    pub error: String,
    /// The pattern of a regular expression that compiles.
    pub pattern: Option<String>,
    /// Small and capital letters differ.
    pub case: bool,
    /// Only whole words count.
    pub word: bool,
}

/// The view of a `Search`.
pub struct SearchView {
    pub needle: Seq<char>,
    pub error: Seq<char>,
    pub pattern: Option<Seq<char>>,
    pub case: bool,
    pub word: bool,
}

impl View for Search {
    type V = SearchView;

    open spec fn view(&self) -> SearchView {
        SearchView {
            needle: self.needle@,
            error: self.error@,
            pattern: match self.pattern {
                Some(p) => Some(p@),
                None => None,
            },
            case: self.case,
            word: self.word,
        }
    }
}

/// The pattern that a typed expression stands for. Whole words are asked for around all of it, so
/// that an alternative in it does not take the edge away from its other half.
pub open spec fn pattern_for(needle: Seq<char>, word: bool) -> Seq<char> {
    if word {
        "\\b(?:"@ + needle + ")\\b"@
    } else {
        needle
    }
}

/// The conditions that are typed as `typed`.
pub open spec fn search_for(typed: Seq<char>, case: bool, regex: bool, word: bool) -> SearchView {
    let needle = text::trim(typed);
    if needle.len() == 0 || !regex {
        SearchView { needle, error: Seq::empty(), pattern: None, case, word }
    } else {
        match pattern_error(pattern_for(needle, word), !case) {
            None => SearchView {
                needle,
                error: Seq::empty(),
                pattern: Some(pattern_for(needle, word)),
                case,
                word,
            },
            Some(e) => SearchView {
                needle,
                error: "正则不合法："@ + e,
                pattern: None,
                case,
                word,
            },
        }
    }
}

/// The spans of a plain text in `s`, as byte offsets, from character `i` on. It is looked for at
/// every character, so that hits may overlap.
pub open spec fn plain_spans(
    s: Seq<char>,
    needle: Seq<char>,
    case: bool,
    word: bool,
    i: int,
) -> Seq<(int, int)>
    decreases s.len() - i,
{
    if i >= s.len() || i < 0 {
        Seq::empty()
    } else {
        let rest = plain_spans(s, needle, case, word, i + 1);
        match text::chars_in_bytes(text::after(s, i), text::size(needle)) {
            Some(k) => if alike(s.subrange(i, i + k), needle, case) && (!word || word_edges(
                s,
                i,
                i + k,
            )) {
                seq![
                    (
                        text::size(s.take(i)),
                        text::size(s.take(i)) + text::size(needle),
                    ),
                ] + rest
            } else {
                rest
            },
            None => rest,
        }
    }
}

/// A span in bytes has no part of a word at either edge.
pub open spec fn span_edges(s: Seq<char>, span: (int, int)) -> bool {
    match (text::chars_in_bytes(s, span.0), text::chars_in_bytes(s, span.1)) {
        (Some(i), Some(j)) => word_edges(s, i, j),
        _ => false,
    }
}

/// Those of the first `n` spans that are whole words, where that is asked for.
pub open spec fn kept_spans(s: Seq<char>, spans: Seq<(usize, usize)>, word: bool, n: int) -> Seq<
    (int, int),
>
    decreases n,
{
    if n <= 0 {
        Seq::empty()
    } else {
        let before = kept_spans(s, spans, word, n - 1);
        let span = (spans[n - 1].0 as int, spans[n - 1].1 as int);
        if !word || span_edges(s, span) {
            before.push(span)
        } else {
            before
        }
    }
}

/// The hits of `search` in `s`, as byte offsets.
pub open spec fn spans(search: SearchView, s: Seq<char>) -> Seq<(int, int)> {
    if search.needle.len() == 0 {
        Seq::empty()
    } else {
        match search.pattern {
            Some(p) => {
                let found = pattern_spans(p, !search.case, s);
                kept_spans(s, found, search.word, found.len() as int)
            },
            None => if search.error.len() > 0 {
                Seq::empty()
            } else {
                plain_spans(s, search.needle, search.case, search.word, 0)
            },
        }
    }
}

/// `search` keeps `s`: nothing is searched for, the expression is wrong, or there is a hit.
pub open spec fn keeps(search: SearchView, s: Seq<char>) -> bool {
    search.needle.len() == 0 || search.error.len() > 0 || spans(search, s).len() > 0
}

/// The views of spans.
pub open spec fn span_views(v: Seq<(usize, usize)>) -> Seq<(int, int)> {
    Seq::new(v.len(), |i: int| (v[i].0 as int, v[i].1 as int))
}

fn edges(s: &Vec<char>, from: usize, to: usize) -> (r: bool)
    requires
        from <= s.len(),
    ensures
        r == word_edges(s@, from as int, to as int),
{
    let before = from > 0 && is_word_char(s[from - 1]);
    let behind = to < s.len() && is_word_char(s[to]);
    !before && !behind
}

impl Search {
    /// The conditions typed as `needle`. An expression that does not compile finds nothing and
    /// hides nothing; `error` says what is wrong with it.
    pub fn build(needle: &str, case: bool, regex: bool, word: bool) -> (r: Search)
        ensures
            r@ == search_for(needle@, case, regex, word),
    {
        let needle = text::trimmed(needle);
        if needle.as_str().is_empty() || !regex {
            return Search { needle, error: String::new(), pattern: None, case, word };
        }
        let pattern = if word {
            text::join3("\\b(?:", needle.as_str(), ")\\b")
        } else {
            needle.clone()
        };
        match check_pattern(pattern.as_str(), !case) {
            None => Search { needle, error: String::new(), pattern: Some(pattern), case, word },
            Some(e) => Search {
                needle,
                error: text::join2("正则不合法：", e.as_str()),
                pattern: None,
                case,
                word,
            },
        }
    }

    /// Whether nothing is searched for.
    pub fn is_empty(&self) -> (r: bool)
        ensures
            r == (self@.needle.len() == 0),
    {
        self.needle.as_str().is_empty()
    }

    /// The hits in `text`, as byte offsets. Both what is kept and what is marked go by them.
    pub fn ranges(&self, text: &str) -> (r: Vec<(usize, usize)>)
        ensures
            span_views(r@) == spans(self@, text@),
            spans_fit(text@, span_views(r@)),
    {
        if self.needle.as_str().is_empty() {
            let r: Vec<(usize, usize)> = Vec::new();
            assert(span_views(r@) =~= Seq::empty());
            return r;
        }
        match &self.pattern {
            Some(p) => {
                let mut texts: Vec<String> = Vec::new();
                texts.push(text.to_owned());
                let found = find_spans(p.as_str(), !self.case, &texts);
                kept(text, &found[0], self.word)
            },
            None => if !self.error.as_str().is_empty() {
                let r: Vec<(usize, usize)> = Vec::new();
                assert(span_views(r@) =~= Seq::empty());
                r
            } else {
                self.literal_ranges(text)
            },
        }
    }

    /// Whether `text` is kept.
    pub fn hits(&self, text: &str) -> (r: bool)
        ensures
            r == keeps(self@, text@),
    {
        if self.needle.as_str().is_empty() {
            return true;
        }
        if !self.error.as_str().is_empty() {
            return true;
        }
        let found = self.ranges(text);
        assert(span_views(found@).len() == found@.len());
        found.len() > 0
    }

    /// The hits in each of `texts`, as byte offsets. An expression is compiled once for all of them.
    pub fn ranges_each(&self, texts: &Vec<String>) -> (r: Vec<Vec<(usize, usize)>>)
        ensures
            r@.len() == texts@.len(),
            forall|i: int|
                0 <= i < r@.len() ==> span_views((#[trigger] r@[i])@) == spans(
                    self@,
                    texts@[i]@,
                ) && spans_fit(texts@[i]@, span_views(r@[i]@)),
    {
        let found = match &self.pattern {
            Some(p) => find_spans(p.as_str(), !self.case, texts),
            None => Vec::new(),
        };
        let mut out: Vec<Vec<(usize, usize)>> = Vec::new();
        let mut i: usize = 0;
        while i < texts.len()
            invariant
                i <= texts.len(),
                self.pattern is Some ==> found@.len() == texts@.len() && forall|j: int|
                    0 <= j < found@.len() ==> (#[trigger] found@[j])@ == pattern_spans(
                        self@.pattern->0,
                        !self@.case,
                        texts@[j]@,
                    ) && spans_fit(texts@[j]@, span_views(found@[j]@)),
                out@.len() == i,
                forall|j: int|
                    0 <= j < i ==> span_views((#[trigger] out@[j])@) == spans(
                        self@,
                        texts@[j]@,
                    ) && spans_fit(texts@[j]@, span_views(out@[j]@)),
            decreases texts.len() - i,
        {
            let here = match &self.pattern {
                Some(_) if !self.needle.as_str().is_empty() => kept(
                    texts[i].as_str(),
                    &found[i],
                    self.word,
                ),
                _ => self.ranges(texts[i].as_str()),
            };
            out.push(here);
            i += 1;
        }
        out
    }

    /// Which of `texts` are kept. An expression is compiled once for all of them.
    pub fn hits_each(&self, texts: &Vec<String>) -> (r: Vec<bool>)
        ensures
            r@.len() == texts@.len(),
            forall|i: int| 0 <= i < r@.len() ==> #[trigger] r@[i] == keeps(self@, texts@[i]@),
    {
        let all = self.needle.as_str().is_empty() || !self.error.as_str().is_empty();
        let found = self.ranges_each(texts);
        let mut out: Vec<bool> = Vec::new();
        let mut i: usize = 0;
        while i < texts.len()
            invariant
                i <= texts.len(),
                all == (self@.needle.len() == 0 || self@.error.len() > 0),
                found@.len() == texts@.len(),
                forall|j: int|
                    0 <= j < found@.len() ==> span_views((#[trigger] found@[j])@) == spans(
                        self@,
                        texts@[j]@,
                    ),
                out@.len() == i,
                forall|j: int| 0 <= j < i ==> #[trigger] out@[j] == keeps(self@, texts@[j]@),
            decreases texts.len() - i,
        {
            assert(span_views(found@[i as int]@).len() == found@[i as int]@.len());
            out.push(all || found[i].len() > 0);
            i += 1;
        }
        out
    }

    fn literal_ranges(&self, text: &str) -> (r: Vec<(usize, usize)>)
        requires
            self@.needle.len() > 0,
        ensures
            span_views(r@) == plain_spans(text@, self@.needle, self@.case, self@.word, 0),
            spans_fit(text@, span_views(r@)),
    {
        let s = text::chars_of(text);
        let n = text::chars_of(self.needle.as_str());
        let ghost nv = self@.needle;
        let width = text::byte_len(self.needle.as_str());
        let room = text::byte_len(text);
        let folded_needle = if self.case {
            text::chars_of(self.needle.as_str())
        } else {
            fold(&n, 0, n.len())
        };
        assert(n@.subrange(0, n@.len() as int) =~= n@);
        let mut out: Vec<(usize, usize)> = Vec::new();
        let mut i: usize = 0;
        let mut at: usize = 0;
        assert(s@.take(0) =~= Seq::empty());
        assert(span_views(out@) + plain_spans(s@, nv, self.case, self.word, 0) =~= plain_spans(
            s@,
            nv,
            self.case,
            self.word,
            0,
        ));
        while i < s.len()
            invariant
                i <= s.len(),
                s@ == text@,
                nv == self@.needle,
                width == text::size(nv),
                folded_needle@ == (if self.case { nv } else { folded(nv) }),
                text::size(s@) == room,
                at == text::size(s@.take(i as int)),
                spans_fit(s@, span_views(out@)),
                plain_spans(s@, nv, self.case, self.word, 0) == span_views(out@) + plain_spans(
                    s@,
                    nv,
                    self.case,
                    self.word,
                    i as int,
                ),
            decreases s.len() - i,
        {
            let ghost before = out@;
            proof {
                lemma_size_prefix(s@, i as int);
                lemma_size_prefix(s@, i + 1);
                assert(s@.take(i + 1).drop_last() =~= s@.take(i as int));
            }
            match text::count_chars(&s, i, width) {
                Some(k) => {
                    let part = if self.case {
                        let mut p: Vec<char> = Vec::new();
                        let mut j: usize = i;
                        while j < i + k
                            invariant
                                i <= j <= i + k <= s.len(),
                                p@ == s@.subrange(i as int, j as int),
                            decreases i + k - j,
                        {
                            p.push(s[j]);
                            j += 1;
                            assert(p@ =~= s@.subrange(i as int, j as int));
                        }
                        p
                    } else {
                        fold(&s, i, i + k)
                    };
                    if same_chars(&part, &folded_needle) && (!self.word || edges(&s, i, i + k)) {
                        proof {
                            let rest = text::after(s@, i as int);
                            text::lemma_chars_in_bytes_size(rest, width as int);
                            text::lemma_size_add(s@.take(i as int), rest.take(k as int));
                            assert(s@.take(i as int) + rest.take(k as int) =~= s@.take(i + k));
                            lemma_size_prefix(s@, i + k);
                            lemma_bytes_in_chars(s@, i as int);
                            lemma_bytes_in_chars(s@, i + k);
                            assert(span_fits(s@, (at as int, at + width)));
                        }
                        out.push((at, at + width));
                        assert(span_views(out@) =~= span_views(before).push(
                            (at as int, at + width),
                        ));
                        assert(spans_fit(s@, span_views(out@)));
                    }
                },
                None => {},
            }
            assert(span_views(before) + plain_spans(s@, nv, self.case, self.word, i as int)
                =~= span_views(out@) + plain_spans(s@, nv, self.case, self.word, i + 1));
            at = at + text::char_width(s[i]);
            i += 1;
        }
        assert(span_views(out@) + plain_spans(s@, nv, self.case, self.word, i as int)
            =~= span_views(out@));
        out
    }
}

/// The first `i` characters make up as many bytes as they take.
proof fn lemma_bytes_in_chars(s: Seq<char>, i: int)
    requires
        0 <= i <= s.len(),
    ensures
        text::chars_in_bytes(s, text::size(s.take(i))) == Some(i),
    decreases s.len(),
{
    if i == 0 {
        assert(s.take(0) =~= Seq::empty());
    } else {
        let rest = text::after(s, 1);
        let first = seq![s[0]];
        lemma_bytes_in_chars(rest, i - 1);
        assert(s.take(i) =~= first + rest.take(i - 1));
        text::lemma_size_add(first, rest.take(i - 1));
        assert(first.drop_last() =~= Seq::empty());
        assert(text::size(Seq::<char>::empty()) == 0);
        assert(text::size(first) == text::width(s[0]));
    }
}

proof fn lemma_size_prefix(s: Seq<char>, i: int)
    requires
        0 <= i <= s.len(),
    ensures
        0 <= text::size(s.take(i)) <= text::size(s),
    decreases s.len() - i,
{
    text::lemma_size_add(s.take(i), Seq::empty());
    if i == s.len() {
        assert(s.take(i) =~= s);
    } else {
        lemma_size_prefix(s, i + 1);
        assert(s.take(i + 1).drop_last() =~= s.take(i));
    }
}

/// Those of `found` that are whole words, where that is asked for.
fn kept(text: &str, found: &Vec<(usize, usize)>, word: bool) -> (r: Vec<(usize, usize)>)
    ensures
        span_views(r@) == kept_spans(text@, found@, word, found@.len() as int),
        spans_fit(text@, span_views(found@)) ==> spans_fit(text@, span_views(r@)),
{
    let s = text::chars_of(text);
    assert(text::after(s@, 0) =~= s@);
    let mut out: Vec<(usize, usize)> = Vec::new();
    let mut i: usize = 0;
    assert(span_views(out@) =~= Seq::empty());
    while i < found.len()
        invariant
            i <= found.len(),
            s@ == text@,
            text::after(s@, 0) == s@,
            span_views(out@) == kept_spans(text@, found@, word, i as int),
            spans_fit(text@, span_views(found@)) ==> spans_fit(text@, span_views(out@)),
        decreases found.len() - i,
    {
        let span = found[i];
        let ghost before = out@;
        assert(span_views(found@)[i as int] == (span.0 as int, span.1 as int));
        let whole = !word || match (
            text::count_chars(&s, 0, span.0),
            text::count_chars(&s, 0, span.1),
        ) {
            (Some(a), Some(b)) => edges(&s, a, b),
            _ => false,
        };
        if whole {
            out.push(span);
            assert(span_views(out@) =~= span_views(before).push(
                (span.0 as int, span.1 as int),
            ));
        }
        i += 1;
    }
    out
}

/// A wrong expression hides nothing and marks nothing; with nothing typed everything is kept and
/// nothing is marked.
pub proof fn law_wrong_or_empty_hides_nothing(
    typed: Seq<char>,
    case: bool,
    regex: bool,
    word: bool,
    s: Seq<char>,
)
    ensures
        search_for(typed, case, regex, word).error.len() > 0 ==> keeps(
            search_for(typed, case, regex, word),
            s,
        ) && spans(search_for(typed, case, regex, word), s).len() == 0,
        text::trim(typed).len() == 0 ==> keeps(search_for(typed, case, regex, word), s) && spans(
            search_for(typed, case, regex, word),
            s,
        ).len() == 0,
{
}

// ---------------------------------------------------------------- pieces

/// A piece of a text, and whether it is a hit.
#[derive(Debug)]
pub struct Piece {
    pub text: String,
    pub marked: bool,
}

/// The view of a `Piece`.
pub struct PieceView {
    pub text: Seq<char>,
    pub marked: bool,
}

impl View for Piece {
    type V = PieceView;

    open spec fn view(&self) -> PieceView {
        PieceView { text: self.text@, marked: self.marked }
    }
}

/// The views of the pieces in `v`.
pub open spec fn piece_views(v: Seq<Piece>) -> Seq<PieceView> {
    Seq::new(v.len(), |i: int| v[i]@)
}

/// The text of pieces, one after the other.
pub open spec fn whole(pieces: Seq<PieceView>) -> Seq<char>
    decreases pieces.len(),
{
    if pieces.len() == 0 {
        Seq::empty()
    } else {
        pieces[0].text + whole(pieces.subrange(1, pieces.len() as int))
    }
}

/// The pieces of `s` from character `cursor` on, with the spans from the `k`th on marked. A span
/// that begins before `cursor` is passed over: it overlaps one that is marked.
pub open spec fn cut(s: Seq<char>, spans: Seq<(int, int)>, k: int, cursor: int) -> Seq<PieceView>
    decreases spans.len() - k,
{
    if k >= spans.len() || k < 0 {
        seq![PieceView { text: text::after(s, cursor), marked: false }]
    } else {
        match (text::chars_in_bytes(s, spans[k].0), text::chars_in_bytes(s, spans[k].1)) {
            (Some(i), Some(j)) => if cursor <= i <= j {
                seq![
                    PieceView { text: s.subrange(cursor, i), marked: false },
                    PieceView { text: s.subrange(i, j), marked: true },
                ] + cut(s, spans, k + 1, j)
            } else {
                cut(s, spans, k + 1, cursor)
            },
            _ => cut(s, spans, k + 1, cursor),
        }
    }
}

proof fn lemma_chars_in_bytes(s: Seq<char>, n: int)
    ensures
        text::chars_in_bytes(s, n) matches Some(k) ==> 0 <= k <= s.len(),
    decreases s.len(),
{
    if n != 0 && s.len() > 0 && n >= text::width(s[0]) {
        lemma_chars_in_bytes(text::after(s, 1), n - text::width(s[0]));
    }
}

proof fn lemma_whole_one(a: PieceView)
    ensures
        whole(seq![a]) == a.text,
{
    let one = seq![a];
    assert(one.subrange(1, one.len() as int) =~= Seq::empty());
    assert(whole(Seq::<PieceView>::empty()) =~= Seq::empty());
    assert(one[0] == a);
    assert(whole(one) == a.text + Seq::<char>::empty());
    assert(a.text + Seq::<char>::empty() =~= a.text);
}

proof fn lemma_whole_front(a: PieceView, b: PieceView, rest: Seq<PieceView>)
    ensures
        whole(seq![a, b] + rest) == a.text + b.text + whole(rest),
{
    let all = seq![a, b] + rest;
    let tail = all.subrange(1, all.len() as int);
    assert(tail =~= seq![b] + rest);
    assert(tail.subrange(1, tail.len() as int) =~= rest);
    assert(tail[0] == b);
    assert(whole(tail) == b.text + whole(rest));
    assert(all[0] == a);
    assert(whole(all) == a.text + whole(tail));
    assert(a.text + (b.text + whole(rest)) =~= a.text + b.text + whole(rest));
}

/// Marking hits changes nothing of the text: the pieces make it up again.
pub proof fn law_pieces_make_up_the_text(
    s: Seq<char>,
    spans: Seq<(int, int)>,
    k: int,
    cursor: int,
)
    requires
        0 <= k,
        0 <= cursor <= s.len(),
    ensures
        whole(cut(s, spans, k, cursor)) == text::after(s, cursor),
    decreases spans.len() - k,
{
    if k >= spans.len() {
        lemma_whole_one(PieceView { text: text::after(s, cursor), marked: false });
    } else {
        lemma_chars_in_bytes(s, spans[k].0);
        lemma_chars_in_bytes(s, spans[k].1);
        match (text::chars_in_bytes(s, spans[k].0), text::chars_in_bytes(s, spans[k].1)) {
            (Some(i), Some(j)) => {
                if cursor <= i <= j {
                    law_pieces_make_up_the_text(s, spans, k + 1, j);
                    let a = PieceView { text: s.subrange(cursor, i), marked: false };
                    let b = PieceView { text: s.subrange(i, j), marked: true };
                    lemma_whole_front(a, b, cut(s, spans, k + 1, j));
                    assert(a.text + b.text + text::after(s, j) =~= text::after(s, cursor));
                } else {
                    law_pieces_make_up_the_text(s, spans, k + 1, cursor);
                }
            },
            _ => {
                law_pieces_make_up_the_text(s, spans, k + 1, cursor);
            },
        }
    }
}

/// Something in `pieces` is marked.
pub open spec fn has_mark(pieces: Seq<PieceView>) -> bool {
    exists|k: int| 0 <= k < pieces.len() && (#[trigger] pieces[k]).marked
}

/// The pieces of `text` with the hits of `search` marked: what is marked is what is found, so that
/// in every text that a search keeps something is marked, and in no other.
pub fn highlight_with(text: &str, search: &Search) -> (r: Vec<Piece>)
    ensures
        highlighted(search@, text@, piece_views(r@)),
{
    let found = search.ranges(text);
    cut_at(text, &found)
}

/// The pieces of each of `texts` with the hits of `search` marked. An expression is compiled once
/// for all of them.
pub fn highlight_each(texts: &Vec<String>, search: &Search) -> (r: Vec<Vec<Piece>>)
    ensures
        r@.len() == texts@.len(),
        forall|i: int|
            0 <= i < r@.len() ==> highlighted(
                search@,
                texts@[i]@,
                piece_views((#[trigger] r@[i])@),
            ),
{
    let found = search.ranges_each(texts);
    let mut out: Vec<Vec<Piece>> = Vec::new();
    let mut i: usize = 0;
    while i < texts.len()
        invariant
            i <= texts.len(),
            found@.len() == texts@.len(),
            forall|j: int|
                0 <= j < found@.len() ==> span_views((#[trigger] found@[j])@) == spans(
                    search@,
                    texts@[j]@,
                ) && spans_fit(texts@[j]@, span_views(found@[j]@)),
            out@.len() == i,
            forall|j: int|
                0 <= j < i ==> highlighted(
                    search@,
                    texts@[j]@,
                    piece_views((#[trigger] out@[j])@),
                ),
        decreases texts.len() - i,
    {
        let pieces = cut_at(texts[i].as_str(), &found[i]);
        out.push(pieces);
        i += 1;
    }
    out
}

/// `pieces` are those of `s` with the hits of `search` marked. Something is marked in every text
/// that a search keeps, and in no other.
pub open spec fn highlighted(search: SearchView, s: Seq<char>, pieces: Seq<PieceView>) -> bool {
    &&& pieces == cut(s, spans(search, s), 0, 0)
    &&& search.needle.len() > 0 && search.error.len() == 0 ==> has_mark(pieces) == keeps(search, s)
}

/// The pieces of `text` with the spans in `found` marked.
fn cut_at(text: &str, found: &Vec<(usize, usize)>) -> (r: Vec<Piece>)
    requires
        spans_fit(text@, span_views(found@)),
    ensures
        piece_views(r@) == cut(text@, span_views(found@), 0, 0),
        has_mark(piece_views(r@)) == (found@.len() > 0),
{
    let s = text::chars_of(text);
    assert(text::after(s@, 0) =~= s@);
    let ghost sv = span_views(found@);
    let mut out: Vec<Piece> = Vec::new();
    let mut cursor: usize = 0;
    let mut k: usize = 0;
    assert(piece_views(out@) + cut(s@, sv, 0, 0) =~= cut(s@, sv, 0, 0));
    while k < found.len()
        invariant
            k <= found.len(),
            cursor <= s.len(),
            sv == span_views(found@),
            text::after(s@, 0) == s@,
            cut(s@, sv, 0, 0) == piece_views(out@) + cut(s@, sv, k as int, cursor as int),
        decreases found.len() - k,
    {
        let span = found[k];
        let ghost before = out@;
        assert(sv[k as int] == (span.0 as int, span.1 as int));
        match (text::count_chars(&s, 0, span.0), text::count_chars(&s, 0, span.1)) {
            (Some(i), Some(j)) => {
                if cursor <= i && i <= j {
                    let a = Piece { text: text::string_from(&s, cursor, i), marked: false };
                    let b = Piece { text: text::string_from(&s, i, j), marked: true };
                    out.push(a);
                    out.push(b);
                    assert(piece_views(out@) =~= piece_views(before).push(a@).push(b@));
                    assert(piece_views(before) + cut(s@, sv, k as int, cursor as int)
                        =~= piece_views(out@) + cut(s@, sv, k + 1, j as int));
                    cursor = j;
                }
            },
            _ => {},
        }
        k += 1;
    }
    let last = Piece { text: text::string_from(&s, cursor, s.len()), marked: false };
    let ghost before = out@;
    out.push(last);
    assert(piece_views(out@) =~= piece_views(before) + seq![last@]);
    proof {
        let all = piece_views(out@);
        if sv.len() > 0 {
            assert(span_fits(s@, sv[0]));
            lemma_chars_in_bytes(s@, sv[0].0);
            assert(all[1].marked);
        }
    }
    out
}

/// `key` stands in `s` at position `i`, ASCII letters taken without regard to case.
pub open spec fn ascii_hit(s: Seq<char>, key: Seq<char>, i: int) -> bool {
    0 <= i && i + key.len() <= s.len() && text::same_ascii(s.subrange(i, i + key.len()), key)
}

/// The first position from `from` on where `key` stands, or -1.
pub open spec fn next_hit(s: Seq<char>, key: Seq<char>, from: int) -> int
    decreases s.len() - from + 1,
{
    if from < 0 || from + key.len() > s.len() {
        -1
    } else if ascii_hit(s, key, from) {
        from
    } else {
        next_hit(s, key, from + 1)
    }
}

proof fn lemma_next_hit(s: Seq<char>, key: Seq<char>, from: int)
    requires
        0 <= from,
    ensures
        next_hit(s, key, from) == -1 || (from <= next_hit(s, key, from) && next_hit(s, key, from)
            + key.len() <= s.len()),
    decreases s.len() - from + 1,
{
    if from + key.len() <= s.len() && !ascii_hit(s, key, from) {
        lemma_next_hit(s, key, from + 1);
    }
}

/// The pieces of `s` from `cursor` on, with every `key` marked.
pub open spec fn marks(s: Seq<char>, key: Seq<char>, cursor: int) -> Seq<PieceView>
    decreases s.len() - cursor,
    when 0 <= cursor && key.len() > 0
    via marks_decreases
{
    let h = next_hit(s, key, cursor);
    if h < 0 {
        if cursor < s.len() {
            seq![PieceView { text: text::after(s, cursor), marked: false }]
        } else {
            Seq::empty()
        }
    } else {
        seq![
            PieceView { text: s.subrange(cursor, h), marked: false },
            PieceView { text: s.subrange(h, h + key.len()), marked: true },
        ] + marks(s, key, h + key.len())
    }
}

#[via_fn]
proof fn marks_decreases(s: Seq<char>, key: Seq<char>, cursor: int) {
    lemma_next_hit(s, key, cursor);
}

/// The pieces of `s` with what was typed as `needle` marked.
pub open spec fn marked(s: Seq<char>, needle: Seq<char>) -> Seq<PieceView> {
    if text::trim(needle).len() == 0 {
        seq![PieceView { text: s, marked: false }]
    } else {
        marks(s, text::trim(needle), 0)
    }
}

fn find_hit(s: &Vec<char>, key: &Vec<char>, from: usize) -> (r: Option<usize>)
    requires
        from <= s.len(),
        key.len() > 0,
    ensures
        match r {
            Some(h) => next_hit(s@, key@, from as int) == h && from <= h && h + key.len()
                <= s.len(),
            None => next_hit(s@, key@, from as int) == -1,
        },
{
    let mut i: usize = from;
    while i <= s.len() && s.len() - i >= key.len()
        invariant
            from <= i <= s.len(),
            key.len() > 0,
            next_hit(s@, key@, from as int) == next_hit(s@, key@, i as int),
        decreases s.len() - i,
    {
        let ghost part = s@.subrange(i as int, i + key@.len());
        let mut k: usize = 0;
        let mut same: bool = true;
        while k < key.len() && same
            invariant
                i + key.len() <= s.len(),
                k <= key.len(),
                part == s@.subrange(i as int, i + key@.len()),
                same ==> forall|j: int|
                    0 <= j < k ==> text::ascii_lower(#[trigger] part[j]) == text::ascii_lower(
                        key@[j],
                    ),
                !same ==> !text::same_ascii(part, key@),
            decreases key.len() - k + (if same { 1int } else { 0 }),
        {
            assert(part[k as int] == s@[i + k]);
            if text::lower_ascii(s[i + k]) != text::lower_ascii(key[k]) {
                same = false;
            } else {
                k += 1;
            }
        }
        if same {
            return Some(i);
        }
        i += 1;
    }
    None
}

/// The pieces of `text` with every occurrence of `needle` marked. ASCII letters are taken without
/// regard to case; white space around `needle` does not count.
pub fn highlight(text: &str, needle: &str) -> (r: Vec<Piece>)
    ensures
        piece_views(r@) == marked(text@, needle@),
{
    let trimmed = text::trimmed(needle);
    let key = text::chars_of(trimmed.as_str());
    let mut out: Vec<Piece> = Vec::new();
    if key.len() == 0 {
        let all = Piece { text: text.to_owned(), marked: false };
        out.push(all);
        assert(piece_views(out@) =~= seq![all@]);
        return out;
    }
    let s = text::chars_of(text);
    let mut cursor: usize = 0;
    assert(piece_views(out@) + marks(s@, key@, 0) =~= marks(s@, key@, 0));
    loop
        invariant
            cursor <= s.len(),
            key.len() > 0,
            s@ == text@,
            key@ == text::trim(needle@),
            marks(s@, key@, 0) == piece_views(out@) + marks(s@, key@, cursor as int),
        decreases s.len() - cursor,
    {
        let ghost before = out@;
        match find_hit(&s, &key, cursor) {
            Some(h) => {
                let a = Piece { text: text::string_from(&s, cursor, h), marked: false };
                let b = Piece { text: text::string_from(&s, h, h + key.len()), marked: true };
                out.push(a);
                out.push(b);
                assert(piece_views(out@) =~= piece_views(before).push(a@).push(b@));
                assert(piece_views(before) + marks(s@, key@, cursor as int) =~= piece_views(out@)
                    + marks(s@, key@, h + key@.len()));
                cursor = h + key.len();
            },
            None => {
                if cursor < s.len() {
                    let a = Piece { text: text::string_from(&s, cursor, s.len()), marked: false };
                    out.push(a);
                    assert(piece_views(out@) =~= piece_views(before) + seq![a@]);
                } else {
                    assert(piece_views(out@) =~= piece_views(before) + Seq::empty());
                }
                return out;
            },
        }
    }
}

/// Marking what was typed changes nothing of the text: the pieces make it up again.
pub proof fn law_marks_make_up_the_text(s: Seq<char>, key: Seq<char>, cursor: int)
    requires
        key.len() > 0,
        0 <= cursor <= s.len(),
    ensures
        whole(marks(s, key, cursor)) == text::after(s, cursor),
    decreases s.len() - cursor,
{
    lemma_next_hit(s, key, cursor);
    let h = next_hit(s, key, cursor);
    let all = marks(s, key, cursor);
    if h < 0 {
        if cursor < s.len() {
            lemma_whole_one(PieceView { text: text::after(s, cursor), marked: false });
        } else {
            assert(whole(all) =~= text::after(s, cursor));
        }
    } else {
        law_marks_make_up_the_text(s, key, h + key.len());
        let a = PieceView { text: s.subrange(cursor, h), marked: false };
        let b = PieceView { text: s.subrange(h, h + key.len()), marked: true };
        lemma_whole_front(a, b, marks(s, key, h + key.len()));
        assert(a.text + b.text + text::after(s, h + key.len()) =~= text::after(s, cursor));
    }
}

/// The colours of a hit, its text and its ground, on a dark or on a light theme.
pub open spec fn hit_colors(dark: bool) -> ((u8, u8, u8), (u8, u8, u8)) {
    if dark {
        ((255, 216, 100), (96, 76, 18))
    } else {
        ((64, 44, 0), (255, 234, 140))
    }
}

/// The colours of a hit, its text and its ground.
pub fn mark_colors(dark: bool) -> (r: ((u8, u8, u8), (u8, u8, u8)))
    ensures
        r == hit_colors(dark),
{
    if dark {
        ((255, 216, 100), (96, 76, 18))
    } else {
        ((64, 44, 0), (255, 234, 140))
    }
}

// ---------------------------------------------------------------- what is found

/// The characters `i..j` of `s` are what is looked for: they take as many bytes as `needle`, are
/// the same but for case where that does not count, and are not cut out of a word where words
/// count.
pub open spec fn found_at(
    s: Seq<char>,
    needle: Seq<char>,
    case: bool,
    word: bool,
    i: int,
    j: int,
) -> bool {
    &&& 0 <= i <= j <= s.len()
    &&& text::size(s.subrange(i, j)) == text::size(needle)
    &&& case ==> s.subrange(i, j) == needle
    &&& !case ==> folded(s.subrange(i, j)) == folded(needle)
    &&& word && i > 0 ==> !alphanumeric(s[i - 1]) && s[i - 1] != '_'
    &&& word && j < s.len() ==> !alphanumeric(s[j]) && s[j] != '_'
}

/// `span` is where something that is looked for stands, as byte offsets.
pub open spec fn is_span(
    s: Seq<char>,
    needle: Seq<char>,
    case: bool,
    word: bool,
    span: (int, int),
) -> bool {
    exists|i: int, j: int| #[trigger]
        found_at(s, needle, case, word, i, j) && span == (
            text::size(s.take(i)),
            text::size(s.take(j)),
        )
}

proof fn lemma_size_grows(s: Seq<char>, i: int, j: int)
    requires
        0 <= i <= j <= s.len(),
    ensures
        text::size(s.take(j)) == text::size(s.take(i)) + text::size(s.subrange(i, j)),
        text::size(s.take(j)) - text::size(s.take(i)) >= j - i,
    decreases j - i,
{
    if i == j {
        assert(s.subrange(i, j) =~= Seq::empty());
    } else {
        lemma_size_grows(s, i, j - 1);
        assert(s.take(j).drop_last() =~= s.take(j - 1));
        assert(s.subrange(i, j).drop_last() =~= s.subrange(i, j - 1));
    }
}

/// The span that a hit at character `i` has, where there is one.
proof fn lemma_hit_here(s: Seq<char>, needle: Seq<char>, case: bool, word: bool, i: int)
    requires
        0 <= i < s.len(),
        needle.len() > 0,
    ensures
        match text::chars_in_bytes(text::after(s, i), text::size(needle)) {
            Some(k) => 0 <= k && i + k <= s.len() && (forall|j: int|
                found_at(s, needle, case, word, i, j) ==> j == i + k) && (found_at(
                s,
                needle,
                case,
                word,
                i,
                i + k,
            ) <==> alike(s.subrange(i, i + k), needle, case) && (!word || word_edges(
                s,
                i,
                i + k,
            ))) && text::size(s.take(i + k)) == text::size(s.take(i)) + text::size(needle),
            None => forall|j: int| !found_at(s, needle, case, word, i, j),
        },
{
    let rest = text::after(s, i);
    let n = text::size(needle);
    match text::chars_in_bytes(rest, n) {
        Some(k) => {
            text::lemma_chars_in_bytes_size(rest, n);
            assert(rest.take(k) =~= s.subrange(i, i + k));
            lemma_size_grows(s, i, i + k);
            assert forall|j: int| found_at(s, needle, case, word, i, j) implies j == i + k by {
                lemma_size_grows(s, i, j);
                if j < i + k {
                    lemma_size_grows(s, j, i + k);
                }
                if i + k < j {
                    lemma_size_grows(s, i + k, j);
                }
            }
        },
        None => {
            assert forall|j: int| !found_at(s, needle, case, word, i, j) by {
                if found_at(s, needle, case, word, i, j) {
                    assert(rest.take(j - i) =~= s.subrange(i, j));
                    lemma_bytes_in_chars(rest, j - i);
                }
            }
        },
    }
}

proof fn lemma_plain_spans(s: Seq<char>, needle: Seq<char>, case: bool, word: bool, n: int)
    requires
        0 <= n <= s.len(),
        needle.len() > 0,
    ensures
        ({
            let all = plain_spans(s, needle, case, word, n);
            &&& forall|k: int|
                0 <= k < all.len() ==> is_span(s, needle, case, word, #[trigger] all[k])
                    && text::size(s.take(n)) <= all[k].0
            &&& forall|i: int, j: int|
                n <= i && #[trigger] found_at(s, needle, case, word, i, j) ==> all.contains(
                    (text::size(s.take(i)), text::size(s.take(j))),
                )
            &&& forall|a: int, b: int|
                0 <= a < b < all.len() ==> (#[trigger] all[a]).0 < (#[trigger] all[b]).0
        }),
    decreases s.len() - n,
{
    let all = plain_spans(s, needle, case, word, n);
    lemma_needle_size(needle);
    if n == s.len() {
        assert forall|i: int, j: int| n <= i && #[trigger]
            found_at(s, needle, case, word, i, j) implies all.contains(
            (text::size(s.take(i)), text::size(s.take(j))),
        ) by {
            assert(s.subrange(i, j) =~= Seq::empty());
        }
    } else {
        lemma_plain_spans(s, needle, case, word, n + 1);
        lemma_hit_here(s, needle, case, word, n);
        lemma_size_grows(s, n, n + 1);
        let rest = plain_spans(s, needle, case, word, n + 1);
        let k = text::chars_in_bytes(text::after(s, n), text::size(needle));
        let hit = k is Some && found_at(s, needle, case, word, n, n + k->0);
        let span = (text::size(s.take(n)), text::size(s.take(n)) + text::size(needle));
        assert(all =~= if hit {
            seq![span] + rest
        } else {
            rest
        });
        assert forall|q: int| 0 <= q < all.len() implies is_span(
            s,
            needle,
            case,
            word,
            #[trigger] all[q],
        ) && text::size(s.take(n)) <= all[q].0 by {
            if hit && q == 0 {
                assert(found_at(s, needle, case, word, n, n + k->0));
            } else if hit {
                assert(all[q] == rest[q - 1]);
            }
        }
        assert forall|i: int, j: int| n <= i && #[trigger]
            found_at(s, needle, case, word, i, j) implies all.contains(
            (text::size(s.take(i)), text::size(s.take(j))),
        ) by {
            let want = (text::size(s.take(i)), text::size(s.take(j)));
            if i == n {
                assert(j == n + k->0);
                assert(all[0] == want);
            } else {
                assert(rest.contains(want));
                let q = choose|q: int| 0 <= q < rest.len() && rest[q] == want;
                assert(all[if hit {
                    q + 1
                } else {
                    q
                }] == want);
            }
        }
        assert forall|a: int, b: int| 0 <= a < b < all.len() implies (#[trigger] all[a]).0 < (
        #[trigger] all[b]).0 by {
            if hit {
                assert(all[b] == rest[b - 1]);
                if a > 0 {
                    assert(all[a] == rest[a - 1]);
                }
            }
        }
    }
}

proof fn lemma_needle_size(needle: Seq<char>)
    requires
        needle.len() > 0,
    ensures
        text::size(needle) > 0,
{
    lemma_size_grows(needle, 0, needle.len() as int);
    assert(needle.subrange(0, needle.len() as int) =~= needle);
    assert(needle.take(0) =~= Seq::empty());
    assert(needle.take(needle.len() as int) =~= needle);
}

/// A search without an expression finds what was typed, white space around it left out, wherever it
/// stands, also where two hits overlap, and finds nothing else. The hits come in order. A text is
/// kept exactly where there is one.
pub proof fn law_plain_search_finds_what_was_typed(
    typed: Seq<char>,
    case: bool,
    word: bool,
    s: Seq<char>,
)
    requires
        text::trim(typed).len() > 0,
    ensures
        ({
            let search = search_for(typed, case, false, word);
            let all = spans(search, s);
            let needle = text::trim(typed);
            &&& forall|span: (int, int)| #[trigger]
                all.contains(span) <==> is_span(s, needle, case, word, span)
            &&& forall|a: int, b: int|
                0 <= a < b < all.len() ==> (#[trigger] all[a]).0 < (#[trigger] all[b]).0
            &&& keeps(search, s) <==> exists|i: int, j: int| #[trigger]
                found_at(s, needle, case, word, i, j)
        }),
{
    let search = search_for(typed, case, false, word);
    let all = spans(search, s);
    let needle = text::trim(typed);
    lemma_plain_spans(s, needle, case, word, 0);
    assert forall|span: (int, int)| #[trigger] all.contains(span) <==> is_span(
        s,
        needle,
        case,
        word,
        span,
    ) by {
        if is_span(s, needle, case, word, span) {
            let (i, j) = choose|i: int, j: int| #[trigger]
                found_at(s, needle, case, word, i, j) && span == (
                    text::size(s.take(i)),
                    text::size(s.take(j)),
                );
            assert(found_at(s, needle, case, word, i, j));
        }
    }
    if keeps(search, s) {
        assert(is_span(s, needle, case, word, all[0]));
        let (i, j) = choose|i: int, j: int| #[trigger]
            found_at(s, needle, case, word, i, j) && all[0] == (
                text::size(s.take(i)),
                text::size(s.take(j)),
            );
        assert(found_at(s, needle, case, word, i, j));
    }
    if exists|i: int, j: int| #[trigger] found_at(s, needle, case, word, i, j) {
        let (i, j) = choose|i: int, j: int| #[trigger] found_at(s, needle, case, word, i, j);
        assert(all.contains((text::size(s.take(i)), text::size(s.take(j)))));
    }
}

proof fn lemma_kept_spans(s: Seq<char>, found: Seq<(usize, usize)>, word: bool, n: int)
    requires
        0 <= n <= found.len(),
    ensures
        kept_spans(s, found, word, n) == found.take(n).filter(
            |span: (usize, usize)| !word || on_word_edges(s, span.0 as int, span.1 as int),
        ).map_values(|span: (usize, usize)| (span.0 as int, span.1 as int)),
    decreases n,
{
    reveal(Seq::filter);
    let keep = |span: (usize, usize)| !word || on_word_edges(s, span.0 as int, span.1 as int);
    let as_ints = |span: (usize, usize)| (span.0 as int, span.1 as int);
    if n == 0 {
        assert(found.take(0).filter(keep).map_values(as_ints) =~= Seq::empty());
    } else {
        lemma_kept_spans(s, found, word, n - 1);
        assert(found.take(n).drop_last() =~= found.take(n - 1));
        let span = found[n - 1];
        let before = found.take(n - 1).filter(keep);
        lemma_on_word_edges(s, span.0 as int, span.1 as int);
        assert(before.push(span).map_values(as_ints) =~= before.map_values(as_ints).push(
            as_ints(span),
        ));
    }
}

/// The bytes `a..b` of `s` begin and end between characters, and neither cuts a word.
pub open spec fn on_word_edges(s: Seq<char>, a: int, b: int) -> bool {
    exists|i: int, j: int|
        #![trigger s.take(i), s.take(j)]
        0 <= i <= s.len() && 0 <= j <= s.len() && a == text::size(s.take(i)) && b == text::size(
            s.take(j),
        ) && (i > 0 ==> !alphanumeric(s[i - 1]) && s[i - 1] != '_') && (j < s.len()
            ==> !alphanumeric(s[j]) && s[j] != '_')
}

proof fn lemma_on_word_edges(s: Seq<char>, a: int, b: int)
    ensures
        on_word_edges(s, a, b) <==> span_edges(s, (a, b)),
{
    if on_word_edges(s, a, b) {
        let (i, j) = choose|i: int, j: int|
            #![trigger s.take(i), s.take(j)]
            0 <= i <= s.len() && 0 <= j <= s.len() && a == text::size(s.take(i)) && b
                == text::size(s.take(j)) && (i > 0 ==> !alphanumeric(s[i - 1]) && s[i - 1] != '_')
                && (j < s.len() ==> !alphanumeric(s[j]) && s[j] != '_');
        lemma_bytes_in_chars(s, i);
        lemma_bytes_in_chars(s, j);
    }
    if span_edges(s, (a, b)) {
        text::lemma_chars_in_bytes_size(s, a);
        text::lemma_chars_in_bytes_size(s, b);
        let i = text::chars_in_bytes(s, a)->0;
        let j = text::chars_in_bytes(s, b)->0;
        assert(s.take(i) == s.take(i) && s.take(j) == s.take(j));
    }
}

/// A search with an expression that compiles finds what the expression matches. Where words count,
/// the expression asks for their edges around all of it, and a match that cuts a word is dropped.
pub proof fn law_expressions_find_their_matches(
    typed: Seq<char>,
    case: bool,
    word: bool,
    s: Seq<char>,
)
    requires
        text::trim(typed).len() > 0,
    ensures
        ({
            let needle = text::trim(typed);
            let search = search_for(typed, case, true, word);
            let pattern = if word {
                "\\b(?:"@ + needle + ")\\b"@
            } else {
                needle
            };
            let found = pattern_spans(pattern, !case, s);
            &&& pattern_error(pattern, !case) is None ==> spans(search, s) == found.filter(
                |span: (usize, usize)| !word || on_word_edges(s, span.0 as int, span.1 as int),
            ).map_values(|span: (usize, usize)| (span.0 as int, span.1 as int))
            &&& pattern_error(pattern, !case) is None ==> (keeps(search, s) <==> spans(
                search,
                s,
            ).len() > 0)
            &&& pattern_error(pattern, !case) matches Some(e) ==> search.error
                == "正则不合法："@ + e
        }),
{
    let needle = text::trim(typed);
    let pattern = pattern_for(needle, word);
    let found = pattern_spans(pattern, !case, s);
    lemma_kept_spans(s, found, word, found.len() as int);
    assert(found.take(found.len() as int) =~= found);
}

// ---------------------------------------------------------------- what is marked

/// Where piece `q` begins: how long the pieces before it are.
pub open spec fn begin_of(pieces: Seq<PieceView>, q: int) -> int
    decreases q,
{
    if q <= 0 {
        0
    } else {
        begin_of(pieces, q - 1) + pieces[q - 1].text.len()
    }
}

/// The characters `i..j` are marked as a piece of their own.
pub open spec fn marks_piece(pieces: Seq<PieceView>, from: int, q: int, i: int, j: int) -> bool {
    &&& 0 <= q < pieces.len()
    &&& pieces[q].marked
    &&& from + begin_of(pieces, q) == i
    &&& i + pieces[q].text.len() == j
}

proof fn lemma_begin_behind(a: PieceView, b: PieceView, rest: Seq<PieceView>, q: int)
    requires
        0 <= q <= rest.len(),
    ensures
        begin_of(seq![a, b] + rest, q + 2) == a.text.len() + b.text.len() + begin_of(rest, q),
    decreases q,
{
    let all = seq![a, b] + rest;
    if q == 0 {
        assert(begin_of(all, 1) == begin_of(all, 0) + all[0].text.len());
        assert(begin_of(all, 2) == begin_of(all, 1) + all[1].text.len());
    } else {
        lemma_begin_behind(a, b, rest, q - 1);
        assert(all[q + 1] == rest[q - 1]);
    }
}

/// Span `m` lies at the characters `i..j`.
pub open spec fn span_at(s: Seq<char>, spans: Seq<(int, int)>, m: int, i: int, j: int) -> bool {
    &&& 0 <= m < spans.len()
    &&& 0 <= i <= j <= s.len()
    &&& spans[m] == (text::size(s.take(i)), text::size(s.take(j)))
}

/// What is marked is a hit, whole and in its place. Every hit is marked, or overlaps with one that
/// begins no later and is.
pub proof fn law_marks_are_the_hits(s: Seq<char>, spans: Seq<(int, int)>, k: int, cursor: int)
    requires
        0 <= k <= spans.len(),
        0 <= cursor <= s.len(),
        forall|a: int, b: int|
            0 <= a < b < spans.len() ==> (#[trigger] spans[a]).0 <= (#[trigger] spans[b]).0,
    ensures
        ({
            let pieces = cut(s, spans, k, cursor);
            &&& forall|q: int|
                0 <= q < pieces.len() && (#[trigger] pieces[q]).marked ==> exists|
                    m: int,
                    i: int,
                    j: int,
                | #[trigger]
                    span_at(s, spans, m, i, j) && k <= m && marks_piece(pieces, cursor, q, i, j)
            &&& forall|m: int, i: int, j: int|
                k <= m && cursor <= i && #[trigger] span_at(s, spans, m, i, j) ==> exists|
                    q: int,
                    a: int,
                    b: int,
                | #[trigger]
                    marks_piece(pieces, cursor, q, a, b) && a <= i && (i < b || a == i && b == j)
        }),
    decreases spans.len() - k,
{
    let all = cut(s, spans, k, cursor);
    if k < spans.len() {
        let ci = text::chars_in_bytes(s, spans[k].0);
        let cj = text::chars_in_bytes(s, spans[k].1);
        lemma_chars_in_bytes(s, spans[k].0);
        lemma_chars_in_bytes(s, spans[k].1);
        assert forall|i: int, j: int| #[trigger] span_at(s, spans, k, i, j) implies ci == Some(i)
            && cj == Some(j) by {
            lemma_bytes_in_chars(s, i);
            lemma_bytes_in_chars(s, j);
        }
        if ci is Some && cj is Some && cursor <= ci->0 <= cj->0 {
            let x = ci->0;
            let y = cj->0;
            let rest = cut(s, spans, k + 1, y);
            law_marks_are_the_hits(s, spans, k + 1, y);
            text::lemma_chars_in_bytes_size(s, spans[k].0);
            text::lemma_chars_in_bytes_size(s, spans[k].1);
            let a = PieceView { text: s.subrange(cursor, x), marked: false };
            let b = PieceView { text: s.subrange(x, y), marked: true };
            assert(all == seq![a, b] + rest);
            assert(begin_of(all, 1) == begin_of(all, 0) + all[0].text.len());
            assert(span_at(s, spans, k, x, y));
            assert(marks_piece(all, cursor, 1, x, y));
            assert forall|q: int| 0 <= q < all.len() && (#[trigger] all[q]).marked implies exists|
                m: int,
                i: int,
                j: int,
            | #[trigger]
                span_at(s, spans, m, i, j) && k <= m && marks_piece(all, cursor, q, i, j) by {
                if q >= 2 {
                    assert(all[q] == rest[q - 2]);
                    let (m, i, j) = choose|m: int, i: int, j: int| #[trigger]
                        span_at(s, spans, m, i, j) && k + 1 <= m && marks_piece(
                            rest,
                            y,
                            q - 2,
                            i,
                            j,
                        );
                    lemma_begin_behind(a, b, rest, q - 2);
                    assert(span_at(s, spans, m, i, j) && marks_piece(all, cursor, q, i, j));
                }
            }
            assert forall|m: int, i: int, j: int|
                k <= m && cursor <= i && #[trigger] span_at(s, spans, m, i, j) implies exists|
                q: int,
                a2: int,
                b2: int,
            | #[trigger]
                marks_piece(all, cursor, q, a2, b2) && a2 <= i && (i < b2 || a2 == i && b2
                    == j) by {
                if m > k && y <= i {
                    let (q, a2, b2) = choose|q: int, a2: int, b2: int| #[trigger]
                        marks_piece(rest, y, q, a2, b2) && a2 <= i && (i < b2 || a2 == i && b2
                            == j);
                    lemma_begin_behind(a, b, rest, q);
                    assert(all[q + 2] == rest[q]);
                    assert(marks_piece(all, cursor, q + 2, a2, b2));
                } else if m > k {
                    if i < x {
                        assert(spans[k].0 <= spans[m].0);
                        lemma_size_grows(s, i, x);
                    }
                }
            }
        } else {
            law_marks_are_the_hits(s, spans, k + 1, cursor);
            let rest = cut(s, spans, k + 1, cursor);
            assert(all == rest);
            assert forall|q: int| 0 <= q < all.len() && (#[trigger] all[q]).marked implies exists|
                m: int,
                i: int,
                j: int,
            | #[trigger]
                span_at(s, spans, m, i, j) && k <= m && marks_piece(all, cursor, q, i, j) by {
                assert(rest[q].marked);
                let (m, i, j) = choose|m: int, i: int, j: int| #[trigger]
                    span_at(s, spans, m, i, j) && k + 1 <= m && marks_piece(rest, cursor, q, i, j);
                assert(span_at(s, spans, m, i, j));
            }
        }
    }
}

/// What is marked is what was typed, but for the case of ASCII letters, and between the marks it
/// stands nowhere: every occurrence begins within a mark.
pub proof fn law_every_occurrence_is_marked(s: Seq<char>, key: Seq<char>, cursor: int)
    requires
        key.len() > 0,
        0 <= cursor <= s.len(),
    ensures
        ({
            let pieces = marks(s, key, cursor);
            &&& forall|q: int|
                0 <= q < pieces.len() && (#[trigger] pieces[q]).marked ==> text::same_ascii(
                    pieces[q].text,
                    key,
                )
            &&& forall|i: int|
                cursor <= i && #[trigger] ascii_hit(s, key, i) ==> exists|q: int, a: int, b: int|
                    #[trigger]
                    marks_piece(pieces, cursor, q, a, b) && a <= i < b
        }),
    decreases s.len() - cursor,
{
    let all = marks(s, key, cursor);
    lemma_next_hit_is_first(s, key, cursor);
    let h = next_hit(s, key, cursor);
    if h >= 0 {
        let y = h + key.len();
        law_every_occurrence_is_marked(s, key, y);
        let rest = marks(s, key, y);
        let a = PieceView { text: s.subrange(cursor, h), marked: false };
        let b = PieceView { text: s.subrange(h, y), marked: true };
        assert(all == seq![a, b] + rest);
        assert(begin_of(all, 1) == begin_of(all, 0) + all[0].text.len());
        assert(marks_piece(all, cursor, 1, h, y));
        assert forall|q: int| 0 <= q < all.len() && (#[trigger] all[q]).marked implies text::same_ascii(
            all[q].text,
            key,
        ) by {
            if q >= 2 {
                assert(all[q] == rest[q - 2]);
            }
        }
        assert forall|i: int| cursor <= i && #[trigger] ascii_hit(s, key, i) implies exists|
            q: int,
            a2: int,
            b2: int,
        | #[trigger] marks_piece(all, cursor, q, a2, b2) && a2 <= i < b2 by {
            if i >= y {
                let (q, a2, b2) = choose|q: int, a2: int, b2: int| #[trigger]
                    marks_piece(rest, y, q, a2, b2) && a2 <= i < b2;
                lemma_begin_behind(a, b, rest, q);
                assert(all[q + 2] == rest[q]);
                assert(marks_piece(all, cursor, q + 2, a2, b2));
            } else {
                assert(h <= i);
            }
        }
    }
}

proof fn lemma_next_hit_is_first(s: Seq<char>, key: Seq<char>, from: int)
    requires
        0 <= from,
    ensures
        ({
            let h = next_hit(s, key, from);
            &&& h >= 0 ==> from <= h && ascii_hit(s, key, h)
            &&& forall|i: int| from <= i && #[trigger] ascii_hit(s, key, i) ==> 0 <= h <= i
        }),
    decreases s.len() - from + 1,
{
    if from + key.len() <= s.len() && !ascii_hit(s, key, from) {
        lemma_next_hit_is_first(s, key, from + 1);
    }
}

} // verus!
