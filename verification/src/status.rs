//! What the loop is doing right now: a snapshot that is overwritten, and a
//! timeline to which one line is appended per step.

use vstd::prelude::*;
use crate::clock;
use crate::clock::now_rfc3339;
use crate::text;
use crate::text::{from_lossy, lines_of, owned, pad_left, pad_right, replace, CharSet, Draft};

verus! {

/// What the loop can be doing.
#[derive(Debug, Clone, Copy, PartialEq, Eq, Structural)]
pub enum Phase {
    Picking,
    Reviewing,
    Fixing,
    Verifying,
    Committing,
    Done,
    Failed,
    Idle,
}

impl Phase {
    /// The word for the phase.
    pub open spec fn word(self) -> Seq<char> {
        match self {
            Phase::Picking => "picking"@,
            Phase::Reviewing => "reviewing"@,
            Phase::Fixing => "fixing"@,
            Phase::Verifying => "verifying"@,
            Phase::Committing => "committing"@,
            Phase::Done => "done"@,
            Phase::Failed => "failed"@,
            Phase::Idle => "idle"@,
        }
    }

    /// The word for the phase.
    pub fn as_str(&self) -> (r: &'static str)
        ensures
            r@ == self.word(),
    {
        match self {
            Phase::Picking => "picking",
            Phase::Reviewing => "reviewing",
            Phase::Fixing => "fixing",
            Phase::Verifying => "verifying",
            Phase::Committing => "committing",
            Phase::Done => "done",
            Phase::Failed => "failed",
            Phase::Idle => "idle",
        }
    }
}

/// One entry of the timeline.
#[derive(Debug)]
pub struct Status {
    pub phase: String,
    pub component: String,
    pub detail: String,
    pub ts: String,
}

/// The contents of a [`Status`].
pub struct StatusView {
    pub phase: Seq<char>,
    pub component: Seq<char>,
    pub detail: Seq<char>,
    pub ts: Seq<char>,
}

impl View for Status {
    type V = StatusView;

    open spec fn view(&self) -> StatusView {
        StatusView {
            phase: self.phase@,
            component: self.component@,
            detail: self.detail@,
            ts: self.ts@,
        }
    }
}

/// How many characters of a detail are kept.
pub const DETAIL_LENGTH: usize = 300;

/// A text on one line: each control character is a blank.
pub open spec fn flat(s: Seq<char>) -> Seq<char> {
    text::replaced(s, CharSet::Control, " "@)
}

impl StatusView {
    /// The entry for a phase, made at `ts`.
    pub open spec fn made(
        phase: Phase,
        component: Seq<char>,
        detail: Seq<char>,
        ts: Seq<char>,
    ) -> StatusView {
        StatusView {
            phase: phase.word(),
            component: flat(component),
            detail: text::first_chars(flat(detail), DETAIL_LENGTH as nat),
            ts,
        }
    }

    /// The line of the timeline.
    pub open spec fn line_text(self) -> Seq<char> {
        self.ts + "  ["@ + text::right_aligned(self.phase, 10) + "]  "@ + text::left_aligned(
            self.component,
            22,
        ) + "  "@ + self.detail
    }
}

impl Status {
    /// The entry for a phase, made now.
    pub fn new(phase: Phase, component: &str, detail: &str) -> (r: Status)
        ensures
            clock::moment(r@.ts),
            r@ == StatusView::made(phase, component@, detail@, r@.ts),
            !text::has_char(r@.line_text(), CharSet::Control),
    {
        let ts = now_rfc3339();
        proof {
            clock::lemma_moment_is_clean(ts@);
            law_entries_are_single_lines(phase, component@, detail@, ts@);
        }
        Status::at(phase, component, detail, ts.as_str())
    }

    /// The entry for a phase, made at `ts`.
    pub fn at(phase: Phase, component: &str, detail: &str, ts: &str) -> (r: Status)
        ensures
            r@ == StatusView::made(phase, component@, detail@, ts@),
    {
        let full = replace(detail, CharSet::Control, " ");
        Status {
            phase: owned(phase.as_str()),
            component: replace(component, CharSet::Control, " "),
            detail: owned(text::head_chars(full.as_str(), DETAIL_LENGTH)),
            ts: owned(ts),
        }
    }

    /// The line of the timeline.
    pub fn line(&self) -> (r: String)
        ensures
            r@ == self@.line_text(),
    {
        Draft::of(self.ts.as_str()).put("  [").put(
            pad_left(self.phase.as_str(), 10).as_str(),
        ).put("]  ").put(pad_right(self.component.as_str(), 22).as_str()).put("  ").put(
            self.detail.as_str(),
        ).text
    }
}

proof fn lemma_flat(s: Seq<char>)
    ensures
        !text::has_char(flat(s), CharSet::Control),
    decreases s.len(),
{
    reveal_strlit(" ");
    if s.len() > 0 {
        lemma_flat(s.drop_last());
        let front = flat(s.drop_last());
        let all = flat(s);
        assert forall|i: int| 0 <= i < all.len() implies !CharSet::Control.has(
            #[trigger] all[i],
        ) by {
            if i < front.len() {
                assert(!CharSet::Control.has(front[i]));
            }
        }
    }
}

proof fn lemma_clean_add(a: Seq<char>, b: Seq<char>)
    requires
        !text::has_char(a, CharSet::Control),
        !text::has_char(b, CharSet::Control),
    ensures
        !text::has_char(a + b, CharSet::Control),
{
    assert forall|i: int| 0 <= i < (a + b).len() implies !CharSet::Control.has(
        #[trigger] (a + b)[i],
    ) by {
        if i < a.len() {
            assert(!CharSet::Control.has(a[i]));
        } else {
            assert(!CharSet::Control.has(b[i - a.len()]));
        }
    }
}

proof fn lemma_clean_word(p: Phase)
    ensures
        !text::has_char(p.word(), CharSet::Control),
{
    reveal_strlit("picking");
    reveal_strlit("reviewing");
    reveal_strlit("fixing");
    reveal_strlit("verifying");
    reveal_strlit("committing");
    reveal_strlit("done");
    reveal_strlit("failed");
    reveal_strlit("idle");
}

/// An entry of the timeline is one line, whatever component and detail hold: no
/// control character is in it.
pub proof fn law_entries_are_single_lines(
    phase: Phase,
    component: Seq<char>,
    detail: Seq<char>,
    ts: Seq<char>,
)
    requires
        !text::has_char(ts, CharSet::Control),
    ensures
        !text::has_char(
            StatusView::made(phase, component, detail, ts).line_text(),
            CharSet::Control,
        ),
        StatusView::made(phase, component, detail, ts).detail.len() <= DETAIL_LENGTH,
{
    reveal_strlit("  [");
    reveal_strlit("]  ");
    reveal_strlit("  ");
    let s = StatusView::made(phase, component, detail, ts);
    lemma_clean_word(phase);
    lemma_flat(component);
    lemma_flat(detail);
    let d = flat(detail);
    assert forall|i: int| 0 <= i < s.detail.len() implies !CharSet::Control.has(
        #[trigger] s.detail[i],
    ) by {
        assert(s.detail[i] == d[i]);
        assert(!CharSet::Control.has(d[i]));
    }
    let a = text::blanks(10 - s.phase.len());
    let b = text::blanks(22 - s.component.len());
    lemma_clean_add(a, s.phase);
    lemma_clean_add(s.component, b);
    lemma_clean_add(ts, "  ["@);
    lemma_clean_add(ts + "  ["@, a + s.phase);
    lemma_clean_add(ts + "  ["@ + (a + s.phase), "]  "@);
    lemma_clean_add(ts + "  ["@ + (a + s.phase) + "]  "@, s.component + b);
    lemma_clean_add(ts + "  ["@ + (a + s.phase) + "]  "@ + (s.component + b), "  "@);
    lemma_clean_add(ts + "  ["@ + (a + s.phase) + "]  "@ + (s.component + b) + "  "@, s.detail);
}

// ---------------------------------------------------------------------
// The end of the timeline
// ---------------------------------------------------------------------

/// The last `n` lines, or all where there are no more.
pub open spec fn last_lines(ls: Seq<Seq<char>>, n: nat) -> Seq<Seq<char>> {
    if ls.len() <= n {
        ls
    } else {
        ls.skip(ls.len() - n)
    }
}

/// The last `n` lines in the end of a file. Where the file has more in front of
/// it, the first line is a fragment and does not count.
pub open spec fn tail_lines(buf: Seq<u8>, cut: bool, n: nat) -> Seq<Seq<char>> {
    let ls = text::lines(text::lossy(buf));
    last_lines(
        if cut && ls.len() > 0 {
            ls.skip(1)
        } else {
            ls
        },
        n,
    )
}

/// The last `n` lines in the end of a file.
pub fn tail_lines_from_buf(buf: &[u8], truncated_head: bool, n: usize) -> (r: Vec<String>)
    ensures
        text::texts(r@) == tail_lines(buf@, truncated_head, n as nat),
{
    let told = from_lossy(buf);
    let ls = lines_of(told.as_str());
    let ghost all = text::texts(ls@);
    assert(all.len() == ls@.len());
    let first: usize = if truncated_head && ls.len() > 0 {
        1
    } else {
        0
    };
    let ghost kept = if truncated_head && all.len() > 0 {
        all.skip(1)
    } else {
        all
    };
    let len: usize = ls.len() - first;
    let start: usize = if len > n {
        ls.len() - n
    } else {
        first
    };
    let ghost want = last_lines(kept, n as nat);
    assert(want =~= all.skip(start as int));
    let mut out: Vec<String> = Vec::new();
    let mut i: usize = start;
    assert(text::texts(out@) =~= all.subrange(start as int, start as int));
    while i < ls.len()
        invariant
            start <= i <= ls.len(),
            all == text::texts(ls@),
            text::texts(out@) == all.subrange(start as int, i as int),
        decreases ls.len() - i,
    {
        let ghost was = text::texts(out@);
        out.push(ls[i].clone());
        assert(all[i as int] == ls@[i as int]@);
        assert(text::texts(out@) =~= was.push(ls@[i as int]@));
        assert(was.push(all[i as int]) =~= all.subrange(start as int, i + 1));
        i = i + 1;
    }
    assert(all.subrange(start as int, all.len() as int) =~= all.skip(start as int));
    out
}

/// How many bytes of a file are read at once.
pub const CHUNK: u64 = 4096;

/// The number of line feeds.
pub open spec fn feeds(b: Seq<u8>) -> nat
    decreases b.len(),
{
    if b.len() == 0 {
        0
    } else {
        feeds(b.drop_last()) + (if b.last() == 10u8 {
            1nat
        } else {
            0
        })
    }
}

fn count_feeds(b: &[u8]) -> (r: usize)
    ensures
        r == feeds(b@),
        r <= b@.len(),
{
    let mut i: usize = 0;
    let mut n: usize = 0;
    assert(b@.take(0) =~= Seq::empty());
    while i < b.len()
        invariant
            i <= b.len(),
            n <= i,
            n == feeds(b@.take(i as int)),
        decreases b.len() - i,
    {
        assert(b@.take(i + 1).drop_last() =~= b@.take(i as int));
        if b[i] == 10 {
            n = n + 1;
        }
        i = i + 1;
    }
    assert(b@.take(b@.len() as int) =~= b@);
    n
}

/// The end of a file that is being read backwards, until it holds enough lines.
#[derive(Debug)]
pub struct Tail {
    /// The place in the file from which on it has been read.
    pub pos: u64,
    pub buf: Vec<u8>,
    /// The number of lines that are wanted.
    pub n: usize,
}

impl Tail {
    /// More of the file is needed: there is more, and what was read does not
    /// hold more line feeds than lines are wanted.
    pub open spec fn hungry(&self) -> bool {
        self.n > 0 && self.pos > 0 && feeds(self.buf@) <= self.n
    }

    /// The size of the next chunk.
    pub open spec fn size(&self) -> int {
        if self.pos < CHUNK {
            self.pos as int
        } else {
            CHUNK as int
        }
    }

    /// Nothing of a file of the given length has been read yet; an empty file
    /// has no lines to show.
    pub fn start(file_len: u64, n: usize) -> (r: Option<Tail>)
        ensures
            file_len == 0 ==> r is None,
            file_len > 0 ==> r is Some && r->Some_0.pos == file_len && r->Some_0.buf@
                == Seq::<u8>::empty() && r->Some_0.n == n,
    {
        if file_len == 0 {
            None
        } else {
            Some(Tail { pos: file_len, buf: Vec::new(), n })
        }
    }

    /// The place and the length of the chunk to be read next.
    pub fn wants(&self) -> (r: Option<(u64, usize)>)
        ensures
            match r {
                Some((at, len)) => self.hungry() && len == self.size() && at == self.pos - len,
                None => !self.hungry(),
            },
    {
        if self.n == 0 || self.pos == 0 || count_feeds(self.buf.as_slice()) > self.n {
            return None;
        }
        let len: u64 = if self.pos < CHUNK {
            self.pos
        } else {
            CHUNK
        };
        Some((self.pos - len, len as usize))
    }

    /// Takes in the chunk that was read.
    pub fn take(&mut self, chunk: Vec<u8>)
        requires
            old(self).hungry(),
            chunk@.len() == old(self).size(),
        ensures
            final(self).pos == old(self).pos - chunk@.len(),
            final(self).buf@ == chunk@ + old(self).buf@,
            final(self).n == old(self).n,
    {
        let mut joined: Vec<u8> = chunk;
        let len: u64 = joined.len() as u64;
        joined.append(&mut self.buf);
        self.buf = joined;
        self.pos = self.pos - len;
    }

    /// The lines that were wanted.
    pub fn lines(&self) -> (r: Vec<String>)
        ensures
            text::texts(r@) == tail_lines(self.buf@, self.pos > 0, self.n as nat),
    {
        tail_lines_from_buf(self.buf.as_slice(), self.pos > 0, self.n)
    }
}

/// Reading backwards keeps what was read the end of the file.
pub proof fn law_tail_is_the_end_of_the_file(file: Seq<u8>, pos: int, chunk: Seq<u8>, buf: Seq<u8>)
    requires
        0 <= chunk.len() <= pos <= file.len(),
        buf == file.skip(pos),
        chunk == file.subrange(pos - chunk.len(), pos),
    ensures
        chunk + buf == file.skip(pos - chunk.len()),
{
    assert(chunk + buf =~= file.skip(pos - chunk.len()));
}

proof fn lemma_pieces_add(a: Seq<char>, b: Seq<char>, set: CharSet)
    ensures
        ({
            let p = text::pieces(a, set);
            let q = text::pieces(b, set);
            text::pieces(a + b, set) == p.drop_last() + seq![p.last() + q[0]] + q.skip(1)
        }),
    decreases b.len(),
{
    text::lemma_pieces_nonempty(a, set);
    text::lemma_pieces_nonempty(b, set);
    let p = text::pieces(a, set);
    let q = text::pieces(b, set);
    if b.len() == 0 {
        assert(a + b =~= a);
        assert(q[0] =~= Seq::empty());
        assert(p.last() + q[0] =~= p.last());
        assert(p.drop_last() + seq![p.last() + q[0]] + q.skip(1) =~= p);
    } else {
        let c = b.drop_last();
        lemma_pieces_add(a, c, set);
        text::lemma_pieces_nonempty(c, set);
        let o = text::pieces(c, set);
        assert((a + b).drop_last() =~= a + c);
        let mid = p.drop_last() + seq![p.last() + o[0]] + o.skip(1);
        if set.has(b.last()) {
            assert(text::pieces(a + b, set) == mid.push(Seq::empty()));
            assert(q == o.push(Seq::empty()));
            assert(mid.push(Seq::empty()) =~= p.drop_last() + seq![p.last() + q[0]] + q.skip(1));
        } else {
            let x = b.last();
            assert(q == o.drop_last().push(o.last().push(x)));
            assert(text::pieces(a + b, set) == mid.drop_last().push(mid.last().push(x)));
            if o.len() == 1 {
                assert((p.last() + o[0]).push(x) =~= p.last() + o[0].push(x));
                assert(mid.drop_last().push(mid.last().push(x)) =~= p.drop_last() + seq![
                    p.last() + q[0],
                ] + q.skip(1));
            } else {
                assert(mid.last() == o.last());
                assert(mid.drop_last().push(mid.last().push(x)) =~= p.drop_last() + seq![
                    p.last() + q[0],
                ] + q.skip(1));
            }
        }
    }
}

/// A text whose front is cut off still shows its last lines: where more lines
/// end in what is left than are wanted, dropping the first one, which is a
/// fragment, gives the last lines of the whole text.
pub proof fn law_cut_text_has_the_same_last_lines(front: Seq<char>, rest: Seq<char>, n: nat)
    requires
        text::pieces(rest, CharSet::One('\n')).len() > n + 1,
    ensures
        last_lines(text::lines(rest).skip(1), n) == last_lines(text::lines(front + rest), n),
{
    let nl = CharSet::One('\n');
    lemma_pieces_add(front, rest, nl);
    text::lemma_pieces_nonempty(front, nl);
    let p = text::pieces(front, nl);
    let q = text::pieces(rest, nl);
    let w = text::pieces(front + rest, nl);
    let k = p.len() - 1;
    assert(w =~= p.drop_last() + seq![p.last() + q[0]] + q.skip(1));
    assert(forall|i: int| 1 <= i < q.len() ==> w[k + i] == #[trigger] q[i]);
    let a = text::lines(rest);
    let b = text::lines(front + rest);
    assert(w.last() == q.last());
    assert(a.len() + k == b.len());
    assert forall|i: int| 1 <= i < a.len() implies b[k + i] == #[trigger] a[i] by {
        if i < q.len() - 1 {
            assert(w[k + i] == q[i]);
        }
    }
    assert(last_lines(a.skip(1), n) =~= last_lines(b, n));
}

// ---------------------------------------------------------------------
// Laws of entries
// ---------------------------------------------------------------------

/// A text on one line is the text with a blank for each control character.
pub proof fn law_flat_texts(s: Seq<char>)
    ensures
        flat(s).len() == s.len(),
        forall|i: int|
            0 <= i < s.len() ==> #[trigger] flat(s)[i] == (if text::is_control(s[i]) {
                ' '
            } else {
                s[i]
            }),
    decreases s.len(),
{
    reveal_strlit(" ");
    if s.len() > 0 {
        let front = s.drop_last();
        law_flat_texts(front);
        assert forall|i: int| 0 <= i < s.len() implies #[trigger] flat(s)[i] == (
        if text::is_control(s[i]) {
            ' '
        } else {
            s[i]
        }) by {
            if i < front.len() {
                assert(flat(front)[i] == flat(s)[i]);
            }
        }
    }
}

/// An entry says the phase, the component, up to three hundred characters of
/// the detail, and the time at which it was made; on its line they stand in
/// columns.
pub proof fn law_entries_of_the_timeline(
    phase: Phase,
    component: Seq<char>,
    detail: Seq<char>,
    ts: Seq<char>,
)
    ensures
        ({
            let s = StatusView::made(phase, component, detail, ts);
            &&& s.phase == phase.word() && s.ts == ts && s.component == flat(component)
            &&& detail.len() <= 300 ==> s.detail == flat(detail)
            &&& detail.len() > 300 ==> s.detail == flat(detail).take(300)
            &&& s.line_text() == ts + "  ["@ + text::right_aligned(phase.word(), 10) + "]  "@
                + text::left_aligned(flat(component), 22) + "  "@ + s.detail
        }),
{
    law_flat_texts(detail);
}

/// A phase has its word.
pub proof fn law_words_of_the_timeline(a: Phase)
    ensures
        a is Picking ==> a.word() == "picking"@,
        a is Reviewing ==> a.word() == "reviewing"@,
        a is Fixing ==> a.word() == "fixing"@,
        a is Verifying ==> a.word() == "verifying"@,
        a is Committing ==> a.word() == "committing"@,
        a is Done ==> a.word() == "done"@,
        a is Failed ==> a.word() == "failed"@,
        a is Idle ==> a.word() == "idle"@,
{
}

/// The last lines are the end of the lines: as many as were asked for, or all.
pub proof fn law_last_lines(ls: Seq<Seq<char>>, n: nat)
    ensures
        last_lines(ls, n).len() == (if ls.len() < n {
            ls.len()
        } else {
            n
        }),
        last_lines(ls, n) == ls.skip(ls.len() - last_lines(ls, n).len()),
{
    assert(ls.skip(0) =~= ls);
}

/// The lines at the end of a file are its last lines; where the file goes on in
/// front of what was read, the first piece is a fragment and is left out.
pub proof fn law_lines_at_the_end(buf: Seq<u8>, n: nat)
    ensures
        tail_lines(buf, false, n) == last_lines(text::lines(text::lossy(buf)), n),
        text::lines(text::lossy(buf)).len() > 0 ==> tail_lines(buf, true, n) == last_lines(
            text::lines(text::lossy(buf)).skip(1),
            n,
        ),
        text::lines(text::lossy(buf)).len() == 0 ==> tail_lines(buf, true, n).len() == 0,
{
}

/// A file is read backwards in chunks of four kibibytes until more lines have
/// ended in what was read than are wanted, or all of it is there.
pub proof fn law_reading_backwards(t: Tail)
    ensures
        t.hungry() <==> t.n > 0 && t.pos > 0 && t.buf@.filter(|b: u8| b == 10u8).len() <= t.n,
        t.size() == (if t.pos < 4096 {
            t.pos as int
        } else {
            4096
        }),
{
    lemma_feeds(t.buf@);
}

proof fn lemma_feeds(b: Seq<u8>)
    ensures
        feeds(b) == b.filter(|x: u8| x == 10u8).len(),
    decreases b.len(),
{
    reveal(Seq::filter);
    if b.len() > 0 {
        lemma_feeds(b.drop_last());
    }
}

} // verus!
