//! Nestable-interval tracking: push/pop pairs over a growing text buffer
//! become closed [`Span`]s once both ends are known.
//!
//! A stack comes in two disciplines, selected by the `DISJOINT` parameter.
//! With `DISJOINT = false` annotations nest: `pop` closes the most recent
//! `push` at the current trimmed buffer length. With `DISJOINT = true` a new
//! annotation implicitly ends the one currently open at the new start offset,
//! and `pop` reopens the enclosing annotation at the close offset, so spans of
//! that kind never overlap and an enclosing annotation keeps full coverage.
//!
//! Closing always excludes trailing whitespace (notably the line break that
//! terminates an annotated line) from the span; a close offset never moves
//! before the span's start.
//!
//! The `push` and `pop` contracts are stated as [`stack_push`] and
//! [`stack_pop`] transitions, the very steps the event traces at the end of
//! this module replay — so the span laws proved over traces hold of every
//! sequence of calls on a stack whose buffer only grows by appends.

use vstd::prelude::*;
use vstd::string::StrSliceExecFns;

use crate::span::Span;
use crate::text::trimmed_len;
use crate::text::trimmed_len_str;

verus! {

/// Mathematical image of one stack: pending annotations (start offset and
/// payload, outermost first) and finished spans in order of completion.
pub ghost struct StackModel<T> {
    pub pending: Seq<(int, T)>,
    pub closed: Seq<(SpanModel, T)>,
}

/// A span in the model, with unbounded offsets.
pub ghost struct SpanModel {
    pub start: int,
    pub end: int,
}

impl SpanModel {
    pub open spec fn wf(self) -> bool {
        self.start <= self.end
    }

    pub open spec fn contains(self, x: int) -> bool {
        self.start <= x < self.end
    }

    /// Never partially overlapping: one inside the other, or no common offset.
    pub open spec fn nested_or_disjoint(self, other: SpanModel) -> bool {
        ||| (other.start <= self.start && self.end <= other.end)
        ||| (self.start <= other.start && other.end <= self.end)
        ||| self.end <= other.start
        ||| other.end <= self.start
    }
}

pub open spec fn empty_stack<T>() -> StackModel<T> {
    StackModel { pending: Seq::empty(), closed: Seq::empty() }
}

/// Where a span beginning at `start` closes when the trimmed buffer length is
/// `cut`: trailing whitespace is excluded, but the close never precedes the
/// start.
pub open spec fn close_at(start: int, cut: int) -> int {
    if cut < start {
        start
    } else {
        cut
    }
}

/// One `push` at buffer length `off`. For a disjoint stack this also closes
/// the currently open annotation at `off`.
pub open spec fn stack_push<T>(m: StackModel<T>, off: int, data: T, disjoint: bool) -> StackModel<
    T,
> {
    let closed1 = if disjoint && m.pending.len() > 0 {
        m.closed.push((SpanModel { start: m.pending.last().0, end: off }, m.pending.last().1))
    } else {
        m.closed
    };
    StackModel { pending: m.pending.push((off, data)), closed: closed1 }
}

/// One `pop` when the trimmed buffer length is `cut`. For a disjoint stack
/// this also reopens the enclosing annotation at the close offset.
pub open spec fn stack_pop<T>(m: StackModel<T>, cut: int, disjoint: bool) -> StackModel<T>
    recommends
        m.pending.len() > 0,
{
    let start = m.pending.last().0;
    let end = close_at(start, cut);
    let below = m.pending.drop_last();
    let pending1 = if disjoint && below.len() > 0 {
        below.update(below.len() - 1, (end, below.last().1))
    } else {
        below
    };
    StackModel {
        pending: pending1,
        closed: m.closed.push((SpanModel { start, end }, m.pending.last().1)),
    }
}

/// A generic writer stack over payloads `T`; `DISJOINT` selects the
/// discipline described at the module head.
pub struct WriterStack<T, const DISJOINT: bool> {
    pub in_progress: Vec<(usize, T)>,
    pub done: Vec<(Span, T)>,
}

impl<T, const DISJOINT: bool> WriterStack<T, DISJOINT> {
    /// The mathematical state this stack represents.
    pub open spec fn m(self) -> StackModel<T> {
        StackModel {
            pending: self.in_progress@.map_values(|p: (usize, T)| (p.0 as int, p.1)),
            closed: self.done@.map_values(
                |p: (Span, T)| (SpanModel { start: p.0.start as int, end: p.0.end as int }, p.1),
            ),
        }
    }

    pub fn new() -> (r: Self)
        ensures
            r.m() == empty_stack::<T>(),
    {
        let r = WriterStack { in_progress: Vec::new(), done: Vec::new() };
        proof {
            assert(r.m().pending =~= empty_stack::<T>().pending);
            assert(r.m().closed =~= empty_stack::<T>().closed);
        }
        r
    }
}

impl<T, const DISJOINT: bool> Default for WriterStack<T, DISJOINT> {
    fn default() -> (r: Self)
        ensures
            r.m() == empty_stack::<T>(),
    {
        Self::new()
    }
}

impl<T> WriterStack<T, false> {
    /// Records a pending annotation starting at the buffer's current length.
    pub fn push(&mut self, buf: &str, data: T)
        ensures
            final(self).m() == stack_push(old(self).m(), buf@.len() as int, data, false),
    {
        let offset = buf.unicode_len();
        self.in_progress.push((offset, data));
        proof {
            let target = stack_push(old(self).m(), buf@.len() as int, data, false);
            assert(self.m().pending =~= target.pending);
            assert(self.m().closed =~= target.closed);
        }
    }

    /// Closes the most recently pushed annotation at the trimmed buffer
    /// length. Calling this with nothing pushed is a programming error, which
    /// the contract rules out.
    pub fn pop(&mut self, buf: &str)
        requires
            old(self).m().pending.len() > 0,
        ensures
            final(self).m() == stack_pop(old(self).m(), trimmed_len(buf@) as int, false),
    {
        let cut = trimmed_len_str(buf);
        let p = self.in_progress.pop();
        match p {
            Some(pair) => {
                let start = pair.0;
                let end = if cut < start {
                    start
                } else {
                    cut
                };
                self.done.push((Span { start, end }, pair.1));
                proof {
                    let target = stack_pop(old(self).m(), trimmed_len(buf@) as int, false);
                    assert(self.m().pending =~= target.pending);
                    assert(self.m().closed =~= target.closed);
                }
            },
            None => {
                proof {
                    assert(false);
                }
            },
        }
    }
}

impl<T: Copy> WriterStack<T, true> {
    /// Records a pending annotation starting at the buffer's current length,
    /// first closing the currently open annotation there, so no two
    /// annotations of this stack overlap.
    pub fn push(&mut self, buf: &str, data: T)
        ensures
            final(self).m() == stack_push(old(self).m(), buf@.len() as int, data, true),
    {
        let offset = buf.unicode_len();
        let n = self.in_progress.len();
        if n > 0 {
            let top = self.in_progress[n - 1];
            self.done.push((Span { start: top.0, end: offset }, top.1));
        }
        self.in_progress.push((offset, data));
        proof {
            let target = stack_push(old(self).m(), buf@.len() as int, data, true);
            assert(self.m().pending =~= target.pending);
            assert(self.m().closed =~= target.closed);
        }
    }

    /// Closes the open annotation at the trimmed buffer length and reopens
    /// the enclosing one, if any, at that same offset, preserving coverage.
    /// Calling this with nothing pushed is a programming error, which the
    /// contract rules out.
    pub fn pop(&mut self, buf: &str)
        requires
            old(self).m().pending.len() > 0,
        ensures
            final(self).m() == stack_pop(old(self).m(), trimmed_len(buf@) as int, true),
    {
        let cut = trimmed_len_str(buf);
        let p = self.in_progress.pop();
        match p {
            Some(pair) => {
                let start = pair.0;
                let end = if cut < start {
                    start
                } else {
                    cut
                };
                self.done.push((Span { start, end }, pair.1));
                let q = self.in_progress.pop();
                match q {
                    Some(parent) => {
                        self.in_progress.push((end, parent.1));
                    },
                    None => {},
                }
                proof {
                    let target = stack_pop(old(self).m(), trimmed_len(buf@) as int, true);
                    assert(self.m().pending =~= target.pending);
                    assert(self.m().closed =~= target.closed);
                }
            },
            None => {
                proof {
                    assert(false);
                }
            },
        }
    }
}

/// A stack agrees with a buffer of length `blen`: pending starts are ordered
/// and within the buffer, finished spans are well formed and within the
/// buffer.
pub open spec fn stack_wf_for<T>(m: StackModel<T>, blen: int) -> bool {
    &&& (forall|i: int, j: int|
        #![trigger m.pending[i], m.pending[j]]
        0 <= i <= j < m.pending.len() ==> m.pending[i].0 <= m.pending[j].0)
    &&& (forall|i: int|
        0 <= i < m.pending.len() ==> 0 <= (#[trigger] m.pending[i]).0 <= blen)
    &&& (forall|i: int|
        0 <= i < m.closed.len() ==> 0 <= (#[trigger] m.closed[i]).0.start && m.closed[i].0.wf()
            && m.closed[i].0.end <= blen)
}

pub proof fn lemma_stack_wf_push<T>(m: StackModel<T>, blen: int, data: T, disjoint: bool)
    requires
        stack_wf_for(m, blen),
        0 <= blen,
    ensures
        stack_wf_for(stack_push(m, blen, data, disjoint), blen),
{
    let m1 = stack_push(m, blen, data, disjoint);
    let n = m.pending.len() as int;
    assert forall|i: int| 0 <= i < m1.pending.len() implies 0 <= (#[trigger] m1.pending[i]).0
        <= blen by {
        if i < n {
            assert(m1.pending[i] == m.pending[i]);
        } else {
            assert(m1.pending[i] == (blen, data));
        }
    }
    assert forall|i: int, j: int|
        #![trigger m1.pending[i], m1.pending[j]]
        0 <= i <= j < m1.pending.len() implies m1.pending[i].0 <= m1.pending[j].0 by {
        if i < n {
            assert(m1.pending[i] == m.pending[i]);
        } else {
            assert(m1.pending[i] == (blen, data));
        }
        if j < n {
            assert(m1.pending[j] == m.pending[j]);
        } else {
            assert(m1.pending[j] == (blen, data));
        }
    }
    assert forall|i: int|
        0 <= i < m1.closed.len() implies 0 <= (#[trigger] m1.closed[i]).0.start
            && m1.closed[i].0.wf() && m1.closed[i].0.end <= blen by {
        if i < m.closed.len() {
            assert(m1.closed[i] == m.closed[i]);
        } else {
            assert(disjoint && n > 0);
            assert(m1.closed[i].0 == SpanModel { start: m.pending[n - 1].0, end: blen });
            assert(0 <= m.pending[n - 1].0 <= blen);
        }
    }
}

pub proof fn lemma_stack_wf_pop<T>(m: StackModel<T>, blen: int, cut: int, disjoint: bool)
    requires
        stack_wf_for(m, blen),
        0 <= cut <= blen,
        m.pending.len() > 0,
    ensures
        stack_wf_for(stack_pop(m, cut, disjoint), blen),
{
}

pub proof fn lemma_stack_wf_grow<T>(m: StackModel<T>, blen: int, blen2: int)
    requires
        stack_wf_for(m, blen),
        blen <= blen2,
    ensures
        stack_wf_for(m, blen2),
{
}

/// One event in the life of a stack and its buffer: text appended, an
/// annotation begun, or an annotation ended.
pub ghost enum WriterEv<T> {
    Write(Seq<char>),
    Push(T),
    Pop,
}

/// The effect of one event, exactly as the executable `push` and `pop`
/// promise it: a push records the buffer's current length, a pop closes at
/// the trimmed length.
pub open spec fn run_one<T>(
    buf: Seq<char>,
    m: StackModel<T>,
    ev: WriterEv<T>,
    disjoint: bool,
) -> (Seq<char>, StackModel<T>) {
    match ev {
        WriterEv::Write(t) => (buf + t, m),
        WriterEv::Push(d) => (buf, stack_push(m, buf.len() as int, d, disjoint)),
        WriterEv::Pop => (buf, stack_pop(m, trimmed_len(buf) as int, disjoint)),
    }
}

/// The buffer and stack after a whole sequence of events, starting empty.
pub open spec fn run<T>(tr: Seq<WriterEv<T>>, disjoint: bool) -> (Seq<char>, StackModel<T>)
    decreases tr.len(),
{
    if tr.len() == 0 {
        (Seq::empty(), empty_stack())
    } else {
        let prev = run(tr.drop_last(), disjoint);
        run_one(prev.0, prev.1, tr.last(), disjoint)
    }
}

/// Every pop in the sequence finds a pending annotation: the matched-sequence
/// discipline.
pub open spec fn pops_matched<T>(tr: Seq<WriterEv<T>>, disjoint: bool) -> bool
    decreases tr.len(),
{
    if tr.len() == 0 {
        true
    } else {
        &&& pops_matched(tr.drop_last(), disjoint)
        &&& (tr.last() is Pop ==> run(tr.drop_last(), disjoint).1.pending.len() > 0)
    }
}

/// No event ends an annotation: a contiguous push-only region.
pub open spec fn push_only<T>(tr: Seq<WriterEv<T>>) -> bool {
    forall|i: int| 0 <= i < tr.len() ==> !(#[trigger] tr[i] is Pop)
}

/// The inductive state of a nesting stack against its buffer.
pub open spec fn nested_inv<T>(buf: Seq<char>, m: StackModel<T>) -> bool {
    &&& (forall|i: int, j: int|
        #![trigger m.pending[i], m.pending[j]]
        0 <= i <= j < m.pending.len() ==> m.pending[i].0 <= m.pending[j].0)
    &&& (forall|i: int|
        0 <= i < m.pending.len() ==> 0 <= (#[trigger] m.pending[i]).0 <= buf.len())
    &&& (forall|i: int|
        0 <= i < m.closed.len() ==> 0 <= (#[trigger] m.closed[i]).0.start && m.closed[i].0.wf()
            && m.closed[i].0.end <= buf.len())
    &&& (forall|i: int|
        0 <= i < m.closed.len() && (#[trigger] m.closed[i]).0.start < m.closed[i].0.end
            ==> m.closed[i].0.end <= trimmed_len(buf))
    &&& (forall|i: int, k: int|
        #![trigger m.closed[i], m.pending[k]]
        0 <= i < m.closed.len() && 0 <= k < m.pending.len() && m.closed[i].0.start
            < m.pending[k].0 ==> m.closed[i].0.end <= m.pending[k].0)
    &&& (forall|i: int, j: int|
        #![trigger m.closed[i], m.closed[j]]
        0 <= i < j < m.closed.len() ==> m.closed[i].0.nested_or_disjoint(m.closed[j].0))
}

proof fn lemma_nested_inv_step<T>(buf: Seq<char>, m: StackModel<T>, ev: WriterEv<T>)
    requires
        nested_inv(buf, m),
        ev is Pop ==> m.pending.len() > 0,
    ensures
        nested_inv(run_one(buf, m, ev, false).0, run_one(buf, m, ev, false).1),
{
    match ev {
        WriterEv::Write(t) => {
            crate::text::lemma_trimmed_append_monotone(buf, t);
            assert(buf.len() <= (buf + t).len());
        },
        WriterEv::Push(d) => {},
        WriterEv::Pop => {
            let cut = trimmed_len(buf) as int;
            let s = m.pending.last().0;
            let e = close_at(s, cut);
            let m1 = stack_pop(m, cut, false);
            crate::text::lemma_trimmed_props(buf);
            let ns = SpanModel { start: s, end: e };
            assert forall|i: int| 0 <= i < m.closed.len() implies m.closed[i].0.nested_or_disjoint(ns) by {
                let d = m.closed[i].0;
                if d.start < s {
                    assert(d.end <= s);
                } else {
                    if d.start < d.end {
                        assert(d.end <= trimmed_len(buf));
                    }
                }
            }
            assert(m1.closed.last().0 == ns);
            assert(forall|i: int|
                0 <= i < m1.closed.len() - 1 ==> m1.closed[i] == m.closed[i]);
        },
    }
}

proof fn lemma_nested_run_inv<T>(tr: Seq<WriterEv<T>>)
    requires
        pops_matched(tr, false),
    ensures
        nested_inv(run(tr, false).0, run(tr, false).1),
    decreases tr.len(),
{
    if tr.len() == 0 {
    } else {
        lemma_nested_run_inv(tr.drop_last());
        let prev = run(tr.drop_last(), false);
        lemma_nested_inv_step(prev.0, prev.1, tr.last());
    }
}

/// Law: in any matched sequence of pushes and pops on a nesting stack, every
/// produced span satisfies `start <= end`, and any two produced spans are
/// fully nested or fully disjoint — never partially overlapping.
pub proof fn lemma_nested_spans_well_formed<T>(tr: Seq<WriterEv<T>>)
    requires
        pops_matched(tr, false),
    ensures
        forall|i: int|
            0 <= i < run(tr, false).1.closed.len() ==> (#[trigger] run(
                tr,
                false,
            ).1.closed[i]).0.wf(),
        forall|i: int, j: int|
            #![trigger run(tr, false).1.closed[i], run(tr, false).1.closed[j]]
            0 <= i < j < run(tr, false).1.closed.len() ==> run(
                tr,
                false,
            ).1.closed[i].0.nested_or_disjoint(run(tr, false).1.closed[j].0),
{
    lemma_nested_run_inv(tr);
}

/// The inductive state of a disjoint stack against its buffer: finished
/// spans are well formed and ordered, and all of them end before the open
/// annotation starts.
pub open spec fn disjoint_inv<T>(buf: Seq<char>, m: StackModel<T>) -> bool {
    &&& (forall|i: int, j: int|
        #![trigger m.pending[i], m.pending[j]]
        0 <= i <= j < m.pending.len() ==> m.pending[i].0 <= m.pending[j].0)
    &&& (forall|i: int|
        0 <= i < m.pending.len() ==> 0 <= (#[trigger] m.pending[i]).0 <= buf.len())
    &&& (forall|i: int|
        0 <= i < m.closed.len() ==> 0 <= (#[trigger] m.closed[i]).0.start && m.closed[i].0.wf()
            && m.closed[i].0.end <= buf.len())
    &&& (forall|i: int|
        0 <= i < m.closed.len() - 1 ==> (#[trigger] m.closed[i]).0.end <= m.closed[i + 1].0.start)
    &&& (m.closed.len() > 0 && m.pending.len() > 0 ==> m.closed.last().0.end
        <= m.pending.last().0)
}

proof fn lemma_disjoint_inv_step<T>(buf: Seq<char>, m: StackModel<T>, ev: WriterEv<T>)
    requires
        disjoint_inv(buf, m),
        ev is Pop ==> m.pending.len() > 0,
    ensures
        disjoint_inv(run_one(buf, m, ev, true).0, run_one(buf, m, ev, true).1),
{
    match ev {
        WriterEv::Write(t) => {
            assert(buf.len() <= (buf + t).len());
        },
        WriterEv::Push(d) => {
            let m1 = stack_push(m, buf.len() as int, d, true);
            if m.pending.len() > 0 {
                assert(m1.closed.last().0.end == buf.len());
            }
        },
        WriterEv::Pop => {
            let cut = trimmed_len(buf) as int;
            crate::text::lemma_trimmed_props(buf);
            let m1 = stack_pop(m, cut, true);
            let s = m.pending.last().0;
            let e = close_at(s, cut);
            assert(m1.closed.last().0 == SpanModel { start: s, end: e });
            assert(forall|i: int|
                0 <= i < m1.closed.len() - 1 ==> m1.closed[i] == m.closed[i]);
        },
    }
}

proof fn lemma_disjoint_run_inv<T>(tr: Seq<WriterEv<T>>)
    requires
        pops_matched(tr, true),
    ensures
        disjoint_inv(run(tr, true).0, run(tr, true).1),
    decreases tr.len(),
{
    if tr.len() == 0 {
    } else {
        lemma_disjoint_run_inv(tr.drop_last());
        let prev = run(tr.drop_last(), true);
        lemma_disjoint_inv_step(prev.0, prev.1, tr.last());
    }
}

proof fn lemma_chain<T>(m: StackModel<T>, i: int, j: int)
    requires
        forall|k: int|
            0 <= k < m.closed.len() ==> (#[trigger] m.closed[k]).0.wf(),
        forall|k: int|
            0 <= k < m.closed.len() - 1 ==> (#[trigger] m.closed[k]).0.end <= m.closed[k + 1].0.start,
        0 <= i < j < m.closed.len(),
    ensures
        m.closed[i].0.end <= m.closed[j].0.start,
    decreases j - i,
{
    if j > i + 1 {
        lemma_chain(m, i, j - 1);
    }
}

/// Law: in any matched sequence of pushes and pops on a disjoint stack, the
/// produced spans are well formed and pairwise disjoint in order of
/// production, and — at most one annotation being open at any point — every
/// produced span ends at or before the start of the annotation still open.
pub proof fn lemma_disjoint_spans<T>(tr: Seq<WriterEv<T>>)
    requires
        pops_matched(tr, true),
    ensures
        forall|i: int|
            0 <= i < run(tr, true).1.closed.len() ==> (#[trigger] run(tr, true).1.closed[i]).0.wf(),
        forall|i: int, j: int|
            #![trigger run(tr, true).1.closed[i], run(tr, true).1.closed[j]]
            0 <= i < j < run(tr, true).1.closed.len() ==> run(tr, true).1.closed[i].0.end <= run(
                tr,
                true,
            ).1.closed[j].0.start,
        run(tr, true).1.pending.len() > 0 ==> forall|i: int|
            0 <= i < run(tr, true).1.closed.len() ==> (#[trigger] run(tr, true).1.closed[i]).0.end
                <= run(tr, true).1.pending.last().0,
{
    lemma_disjoint_run_inv(tr);
    let m = run(tr, true).1;
    assert forall|i: int, j: int|
        #![trigger m.closed[i], m.closed[j]]
        0 <= i < j < m.closed.len() implies m.closed[i].0.end <= m.closed[j].0.start by {
        lemma_chain(m, i, j);
    }
    if m.pending.len() > 0 {
        assert forall|i: int| 0 <= i < m.closed.len() implies (#[trigger] m.closed[i]).0.end
            <= m.pending.last().0 by {
            if i < m.closed.len() - 1 {
                lemma_chain(m, i, m.closed.len() - 1);
            }
        }
    }
}

/// The exact shape of a disjoint stack after a push-only run: each finished
/// span reaches from one push offset to the next.
proof fn lemma_push_only_shape<T>(tr: Seq<WriterEv<T>>)
    requires
        push_only(tr),
    ensures
        ({
            let buf = run(tr, true).0;
            let m = run(tr, true).1;
            &&& (forall|i: int, j: int|
                #![trigger m.pending[i], m.pending[j]]
                0 <= i <= j < m.pending.len() ==> m.pending[i].0 <= m.pending[j].0)
            &&& (forall|i: int|
                0 <= i < m.pending.len() ==> 0 <= (#[trigger] m.pending[i]).0 <= buf.len())
            &&& (m.pending.len() == 0 ==> m.closed.len() == 0)
            &&& (m.pending.len() > 0 ==> m.closed.len() == m.pending.len() - 1)
            &&& (forall|i: int|
                0 <= i < m.closed.len() ==> (#[trigger] m.closed[i]).0.start == m.pending[i].0
                    && m.closed[i].0.end == m.pending[i + 1].0)
        }),
    decreases tr.len(),
{
    if tr.len() > 0 {
        assert(push_only(tr.drop_last())) by {
            assert(forall|i: int|
                0 <= i < tr.len() - 1 ==> #[trigger] tr.drop_last()[i] == tr[i]);
        }
        lemma_push_only_shape(tr.drop_last());
        let prev = run(tr.drop_last(), true);
        match tr.last() {
            WriterEv::Write(t) => {
                assert(prev.0.len() <= (prev.0 + t).len());
            },
            WriterEv::Push(d) => {},
            WriterEv::Pop => {
                assert(false);
            },
        }
    }
}

/// Some finished span of `m` holds the offset `x`.
pub open spec fn covered_by_closed<T>(m: StackModel<T>, x: int) -> bool {
    exists|i: int| 0 <= i < m.closed.len() && (#[trigger] m.closed[i]).0.contains(x)
}

proof fn lemma_cover_scan<T>(m: StackModel<T>, x: int, k: int)
    requires
        m.pending.len() > 0,
        m.closed.len() == m.pending.len() - 1,
        forall|i: int|
            0 <= i < m.closed.len() ==> (#[trigger] m.closed[i]).0.start == m.pending[i].0
                && m.closed[i].0.end == m.pending[i + 1].0,
        0 <= k < m.pending.len() - 1,
        m.pending[k].0 <= x,
        x < m.pending.last().0,
    ensures
        covered_by_closed(m, x),
    decreases m.pending.len() - k,
{
    if x < m.pending[k + 1].0 {
        assert(m.closed[k].0.contains(x));
    } else {
        lemma_cover_scan(m, x, k + 1);
    }
}

/// Law: after a contiguous push-only region on a disjoint stack, the
/// finished spans and the annotation still open together cover every offset
/// from the first push to the end of the buffer, with no gaps.
pub proof fn lemma_disjoint_coverage<T>(tr: Seq<WriterEv<T>>)
    requires
        push_only(tr),
        run(tr, true).1.pending.len() > 0,
    ensures
        forall|x: int|
            run(tr, true).1.pending[0].0 <= x < run(tr, true).0.len() ==> #[trigger] covered_by_closed(
                run(tr, true).1,
                x,
            ) || run(tr, true).1.pending.last().0 <= x,
{
    lemma_push_only_shape(tr);
    let buf = run(tr, true).0;
    let m = run(tr, true).1;
    assert forall|x: int|
        m.pending[0].0 <= x < buf.len() implies covered_by_closed(m, x) || m.pending.last().0
        <= x by {
        if x < m.pending.last().0 {
            lemma_cover_scan(m, x, 0);
        }
    }
}

} // verus!
