//! The output of a command that runs for a while: bytes come in pieces of any size, lines go out
//! as soon as they are complete.

use vstd::prelude::*;
use crate::svn::{decode_bytes, decoded, Run};
use crate::text;

verus! {

/// The position of the first line feed, or the length.
pub open spec fn feed_at(b: Seq<u8>) -> int
    decreases b.len(),
{
    if b.len() == 0 || b[0] == 10 {
        0
    } else {
        1 + feed_at(b.drop_first())
    }
}

/// The complete lines in `b`, each with its line feed.
pub open spec fn segments(b: Seq<u8>) -> Seq<Seq<u8>>
    decreases b.len(),
{
    let i = feed_at(b);
    if 0 <= i < b.len() {
        seq![b.subrange(0, i + 1)] + segments(b.subrange(i + 1, b.len() as int))
    } else {
        Seq::empty()
    }
}

/// What follows the last line feed in `b`.
pub open spec fn remainder(b: Seq<u8>) -> Seq<u8>
    decreases b.len(),
{
    let i = feed_at(b);
    if 0 <= i < b.len() {
        remainder(b.subrange(i + 1, b.len() as int))
    } else {
        b
    }
}

/// A complete line as the output shows it.
pub open spec fn line_shown(segment: Seq<u8>) -> Seq<char> {
    text::strip_end(decoded(segment), '\n', '\r')
}

/// Complete lines as the output shows them. Lines without a character are left out.
pub open spec fn lines_shown(segments: Seq<Seq<u8>>) -> Seq<Seq<char>>
    decreases segments.len(),
{
    if segments.len() == 0 {
        Seq::empty()
    } else {
        let before = lines_shown(segments.drop_last());
        let line = line_shown(segments.last());
        if line.len() > 0 {
            before.push(line)
        } else {
            before
        }
    }
}

proof fn lemma_feed_at(b: Seq<u8>)
    ensures
        0 <= feed_at(b) <= b.len(),
        feed_at(b) < b.len() ==> b[feed_at(b)] == 10,
        forall|j: int| 0 <= j < feed_at(b) ==> #[trigger] b[j] != 10,
    decreases b.len(),
{
    if b.len() > 0 && b[0] != 10 {
        let rest = b.drop_first();
        lemma_feed_at(rest);
        assert forall|j: int| 0 <= j < feed_at(b) implies #[trigger] b[j] != 10 by {
            if j > 0 {
                assert(b[j] == rest[j - 1]);
            }
        }
    }
}

proof fn lemma_feed_at_is(b: Seq<u8>, i: int)
    requires
        0 <= i <= b.len(),
        i < b.len() ==> b[i] == 10,
        forall|j: int| 0 <= j < i ==> #[trigger] b[j] != 10,
    ensures
        feed_at(b) == i,
{
    lemma_feed_at(b);
    let k = feed_at(b);
    if k < i {
        assert(b[k] != 10);
    }
    if i < k {
        assert(b[i] != 10);
    }
}

/// What was read of the output of a command so far.
#[derive(Debug)]
pub struct LineFeed {
    /// Everything.
    pub all: Vec<u8>,
    /// What follows the last line feed.
    pub pending: Vec<u8>,
}

impl LineFeed {
    /// Nothing was read yet.
    pub fn new() -> (r: LineFeed)
        ensures
            r.all@.len() == 0,
            r.pending@.len() == 0,
    {
        LineFeed { all: Vec::new(), pending: Vec::new() }
    }

    /// Takes in a piece of the output. Returns the lines that it completes.
    pub fn feed(&mut self, chunk: &[u8]) -> (r: Vec<String>)
        ensures
            text::views(r@) == lines_shown(segments(old(self).pending@ + chunk@)),
            final(self).pending@ == remainder(old(self).pending@ + chunk@),
            final(self).all@ == old(self).all@ + chunk@,
    {
        let ghost b = self.pending@ + chunk@;
        let ghost all0 = self.all@;
        let mut lines: Vec<String> = Vec::new();
        let ghost start = self.pending@;
        let mut whole: Vec<u8> = Vec::new();
        let mut k: usize = 0;
        while k < self.pending.len()
            invariant
                k <= self.pending.len(),
                self.pending@ == start,
                whole@ == start.take(k as int),
                self.all@ == all0,
            decreases self.pending.len() - k,
        {
            whole.push(self.pending[k]);
            k += 1;
            assert(whole@ =~= start.take(k as int));
        }
        assert(whole@ =~= start);
        let mut i: usize = 0;
        assert(chunk@.take(0) =~= Seq::empty());
        while i < chunk.len()
            invariant
                i <= chunk.len(),
                self.all@ == all0 + chunk@.take(i as int),
                whole@ == start + chunk@.take(i as int),
            decreases chunk.len() - i,
        {
            whole.push(chunk[i]);
            self.all.push(chunk[i]);
            i += 1;
            assert(chunk@.take(i as int) =~= chunk@.take(i - 1).push(chunk@[i - 1]));
            assert(whole@ =~= start + chunk@.take(i as int));
            assert(self.all@ =~= all0 + chunk@.take(i as int));
        }
        assert(chunk@.take(i as int) =~= chunk@);
        let ghost mut done: Seq<Seq<u8>> = Seq::empty();
        let mut from: usize = 0;
        assert(b.subrange(0, b.len() as int) =~= b);
        assert(text::views(lines@) =~= lines_shown(done));
        assert(segments(b) =~= done + segments(b));
        loop
            invariant_except_break
                from <= b.len(),
                whole@ == b,
                segments(b) == done + segments(b.subrange(from as int, b.len() as int)),
                remainder(b) == remainder(b.subrange(from as int, b.len() as int)),
                text::views(lines@) == lines_shown(done),
            invariant
                whole@ == b,
                self.all@ == all0 + chunk@,
            ensures
                from <= b.len(),
                segments(b) == done,
                remainder(b) == b.subrange(from as int, b.len() as int),
                text::views(lines@) == lines_shown(done),
            decreases b.len() - from,
        {
            let ghost rest = b.subrange(from as int, b.len() as int);
            let mut to: usize = from;
            let mut one: Vec<u8> = Vec::new();
            while to < whole.len() && whole[to] != 10
                invariant
                    from <= to <= whole.len(),
                    whole@ == b,
                    rest == b.subrange(from as int, b.len() as int),
                    one@ == b.subrange(from as int, to as int),
                    forall|j: int| 0 <= j < to - from ==> #[trigger] rest[j] != 10,
                decreases whole.len() - to,
            {
                one.push(whole[to]);
                assert(rest[to - from] == b[to as int]);
                to += 1;
                assert(one@ =~= b.subrange(from as int, to as int));
            }
            proof {
                lemma_feed_at_is(rest, to - from);
            }
            if to == whole.len() {
                assert(segments(rest) =~= Seq::empty());
                assert(segments(b) =~= done);
                break;
            }
            one.push(10u8);
            assert(one@ =~= rest.subrange(0, to - from + 1));
            assert(rest.subrange(to - from + 1, rest.len() as int) =~= b.subrange(
                to + 1,
                b.len() as int,
            ));
            let t = decode_bytes(one.as_slice());
            let shown = text::stripped_end(t.as_str(), '\n', '\r');
            let ghost before = lines@;
            let ghost done0 = done;
            proof {
                done = done.push(one@);
                assert(done.drop_last() =~= done0);
                assert(segments(b) =~= done + segments(b.subrange(to + 1, b.len() as int)));
            }
            if !shown.as_str().is_empty() {
                lines.push(shown);
                assert(text::views(lines@) =~= text::views(before).push(shown@));
            }
            from = to + 1;
        }
        let mut left: Vec<u8> = Vec::new();
        let mut j: usize = from;
        while j < whole.len()
            invariant
                from <= j <= whole.len(),
                whole@ == b,
                left@ == b.subrange(from as int, j as int),
                self.all@ == all0 + chunk@,
            decreases whole.len() - j,
        {
            left.push(whole[j]);
            j += 1;
            assert(left@ =~= b.subrange(from as int, j as int));
        }
        self.pending = left;
        lines
    }

    /// The line that the output ends with, where it does not end with a line feed.
    pub fn finish(&self) -> (r: Option<String>)
        ensures
            match r {
                Some(t) => self.pending@.len() > 0 && t@ == text::trim(decoded(self.pending@))
                    && t@.len() > 0,
                None => self.pending@.len() == 0 || text::trim(decoded(self.pending@)).len() == 0,
            },
    {
        if self.pending.len() == 0 {
            return None;
        }
        let t = decode_bytes(self.pending.as_slice());
        let line = text::trimmed(t.as_str());
        if line.as_str().is_empty() {
            None
        } else {
            Some(line)
        }
    }

    /// The run, once the command has ended. `code` is what it ended with, if anything.
    pub fn close(&self, ok: bool, code: Option<i32>, err: String) -> (r: Run)
        ensures
            r.ok == ok,
            r.code == (match code {
                Some(c) => c as int,
                None => -1,
            }),
            r.out@ == decoded(self.all@),
            r.err@ == err@,
    {
        let c = match code {
            Some(c) => c,
            None => -1,
        };
        Run::new(ok, c, decode_bytes(self.all.as_slice()), err)
    }
}

// ---------------------------------------------------------------- laws

/// It does not matter how the output is cut into pieces: the lines come out the same, and so does
/// what is left.
pub proof fn law_pieces_do_not_matter(pending: Seq<u8>, a: Seq<u8>, b: Seq<u8>)
    ensures
        segments(pending + (a + b)) == segments(pending + a) + segments(
            remainder(pending + a) + b,
        ),
        remainder(pending + (a + b)) == remainder(remainder(pending + a) + b),
{
    assert(pending + (a + b) =~= (pending + a) + b);
    lemma_cut(pending + a, b);
}

proof fn lemma_cut(a: Seq<u8>, b: Seq<u8>)
    ensures
        segments(a + b) == segments(a) + segments(remainder(a) + b),
        remainder(a + b) == remainder(remainder(a) + b),
    decreases a.len(),
{
    lemma_feed_at(a);
    let i = feed_at(a);
    if i < a.len() {
        let rest = a.subrange(i + 1, a.len() as int);
        assert forall|j: int| 0 <= j < i implies #[trigger] (a + b)[j] != 10 by {
            assert((a + b)[j] == a[j]);
        }
        lemma_feed_at_is(a + b, i);
        assert((a + b).subrange(i + 1, (a + b).len() as int) =~= rest + b);
        assert((a + b).subrange(0, i + 1) =~= a.subrange(0, i + 1));
        lemma_cut(rest, b);
        assert(segments(a + b) =~= segments(a) + segments(remainder(a) + b));
    } else {
        assert(segments(a) + segments(a + b) =~= segments(a + b));
    }
}

/// Nothing of the output gets lost: its lines and what is left make it up again.
pub proof fn law_nothing_is_lost(b: Seq<u8>)
    ensures
        segments(b).flatten() + remainder(b) == b,
    decreases b.len(),
{
    lemma_feed_at(b);
    let i = feed_at(b);
    if i < b.len() {
        let head = b.subrange(0, i + 1);
        let rest = b.subrange(i + 1, b.len() as int);
        law_nothing_is_lost(rest);
        let s = seq![head] + segments(rest);
        assert(s.drop_first() =~= segments(rest));
        assert(s.first() == head);
        assert(s.flatten() == head + segments(rest).flatten());
        assert(head + (segments(rest).flatten() + remainder(rest)) =~= b);
        assert(s.flatten() + remainder(rest) =~= head + (segments(rest).flatten() + remainder(
            rest,
        )));
    } else {
        assert(Seq::<Seq<u8>>::empty().flatten() =~= Seq::<u8>::empty());
        assert(segments(b).flatten() + remainder(b) =~= b);
    }
}

/// Bytes up to a line feed make a line, whatever follows; what follows is cut in the same way.
pub proof fn law_line_feeds_end_lines(line: Seq<u8>, rest: Seq<u8>)
    requires
        !line.contains(10u8),
    ensures
        segments(line + seq![10u8] + rest) == seq![line + seq![10u8]] + segments(rest),
        remainder(line + seq![10u8] + rest) == remainder(rest),
        segments(line).len() == 0,
        remainder(line) == line,
{
    let b = line + seq![10u8] + rest;
    let n = line.len() as int;
    lemma_feed_at(b);
    lemma_feed_at(line);
    let i = feed_at(b);
    assert(b[n] == 10u8);
    if i < n {
        assert(line.contains(line[i]));
        assert(b[i] == line[i]);
    }
    if feed_at(line) < line.len() {
        assert(line.contains(line[feed_at(line)]));
    }
    assert(i == n);
    assert(b.subrange(0, n + 1) =~= line + seq![10u8]);
    assert(b.subrange(n + 1, b.len() as int) =~= rest);
}

/// The output shows every complete line that holds more than its end, in order, without that end.
pub proof fn law_lines_are_shown(lines: Seq<Seq<u8>>)
    ensures
        lines_shown(lines) == lines.map_values(
            |line: Seq<u8>| text::strip_end(decoded(line), '\n', '\r'),
        ).filter(|line: Seq<char>| line.len() > 0),
    decreases lines.len(),
{
    reveal(Seq::filter);
    let show = |line: Seq<u8>| text::strip_end(decoded(line), '\n', '\r');
    let kept = |line: Seq<char>| line.len() > 0;
    if lines.len() == 0 {
        assert(lines.map_values(show) =~= Seq::empty());
    } else {
        law_lines_are_shown(lines.drop_last());
        let all = lines.map_values(show);
        assert(all.drop_last() =~= lines.drop_last().map_values(show));
        assert(all.last() == show(lines.last()));
    }
}

} // verus!
