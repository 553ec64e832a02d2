//! The page builder: one shared text buffer and four overlay stacks —
//! highlight labels, folding regions, jump targets and code actions — with
//! scoped begin/write/end annotation discipline, frozen by [`PageWriter::finish`]
//! into an immutable [`Page`].
//!
//! Offsets count characters of the buffer's `Seq<char>` view. The label
//! stack is disjoint: a nested label visually replaces its parent rather
//! than nesting inside it. The other kinds nest.

use vstd::multiset::Multiset;
use vstd::prelude::*;
use vstd::string::StringExecFns;

use crate::semantic_token::get_or_default;
use crate::semantic_token::spec_token_or_default;
use crate::span::Span;
use crate::stack::empty_stack;
use crate::stack::lemma_stack_wf_grow;
use crate::stack::lemma_stack_wf_pop;
use crate::stack::lemma_stack_wf_push;
use crate::stack::stack_pop;
use crate::stack::stack_push;
use crate::stack::stack_wf_for;
use crate::stack::SpanModel;
use crate::stack::StackModel;
use crate::stack::WriterStack;
use crate::text::append_str;
use crate::text::lemma_trimmed_props;
use crate::text::trimmed_len;

verus! {

/// Semantic highlight token number, an index into the token table.
pub type TokenType = u32;

/// An action the editor may offer over the span it is attached to.
#[derive(Debug, Clone, PartialEq, Eq)]
pub struct CodeAction {
    pub title: String,
    pub command: String,
    pub args: Vec<String>,
}

/// Where a jump-to-definition over a span leads: a filesystem path.
#[derive(Debug, Clone, PartialEq, Eq)]
pub struct GotoDefinitionTarget {
    pub target: String,
}

/// The immutable result of one render pass: final text and one finished
/// overlay list per kind. Never mutated after [`PageWriter::finish`].
#[derive(Debug)]
pub struct Page {
    pub text: String,
    pub labels: Vec<(Span, TokenType)>,
    pub folding_ranges: Vec<(Span, ())>,
    pub goto_def: Vec<(Span, GotoDefinitionTarget)>,
    pub code_actions: Vec<(Span, CodeAction)>,
}

/// Every span is well formed and lies within a text of length `blen`.
pub open spec fn spans_bounded<T>(s: Seq<(Span, T)>, blen: int) -> bool {
    forall|i: int|
        0 <= i < s.len() ==> (#[trigger] s[i]).0.start <= s[i].0.end && s[i].0.end <= blen
}

impl Page {
    /// All overlay spans lie within the text.
    pub open spec fn wf(self) -> bool {
        &&& spans_bounded(self.labels@, self.text@.len() as int)
        &&& spans_bounded(self.folding_ranges@, self.text@.len() as int)
        &&& spans_bounded(self.goto_def@, self.text@.len() as int)
        &&& spans_bounded(self.code_actions@, self.text@.len() as int)
    }
}

/// The accumulating page: the text buffer and the four overlay stacks.
pub struct PageWriter {
    pub buf: String,
    pub labels: WriterStack<TokenType, true>,
    pub folds: WriterStack<(), false>,
    pub goto_def: WriterStack<GotoDefinitionTarget, false>,
    pub code_actions: WriterStack<Vec<CodeAction>, false>,
}

impl PageWriter {
    /// Every overlay stack agrees with the buffer.
    pub open spec fn wf(self) -> bool {
        &&& stack_wf_for(self.labels.m(), self.buf@.len() as int)
        &&& stack_wf_for(self.folds.m(), self.buf@.len() as int)
        &&& stack_wf_for(self.goto_def.m(), self.buf@.len() as int)
        &&& stack_wf_for(self.code_actions.m(), self.buf@.len() as int)
    }

    pub fn new() -> (r: PageWriter)
        ensures
            r.wf(),
            r.buf@ == Seq::<char>::empty(),
            r.labels.m() == empty_stack::<TokenType>(),
            r.folds.m() == empty_stack::<()>(),
            r.goto_def.m() == empty_stack::<GotoDefinitionTarget>(),
            r.code_actions.m() == empty_stack::<Vec<CodeAction>>(),
    {
        PageWriter {
            buf: String::new(),
            labels: WriterStack::new(),
            folds: WriterStack::new(),
            goto_def: WriterStack::new(),
            code_actions: WriterStack::new(),
        }
    }

    /// Appends plain, unannotated text.
    pub fn write(&mut self, text: &str)
        requires
            old(self).wf(),
        ensures
            final(self).wf(),
            final(self).buf@ == old(self).buf@ + text@,
            final(self).labels == old(self).labels,
            final(self).folds == old(self).folds,
            final(self).goto_def == old(self).goto_def,
            final(self).code_actions == old(self).code_actions,
    {
        append_str(&mut self.buf, text);
        proof {
            let b0 = old(self).buf@.len() as int;
            let b1 = self.buf@.len() as int;
            lemma_stack_wf_grow(self.labels.m(), b0, b1);
            lemma_stack_wf_grow(self.folds.m(), b0, b1);
            lemma_stack_wf_grow(self.goto_def.m(), b0, b1);
            lemma_stack_wf_grow(self.code_actions.m(), b0, b1);
        }
    }

    /// Begins a highlight annotation under the given label name, closing the
    /// label currently open, if any, at this offset.
    pub fn push_label(&mut self, label: &str)
        requires
            old(self).wf(),
        ensures
            final(self).wf(),
            final(self).buf == old(self).buf,
            final(self).labels.m() == stack_push(
                old(self).labels.m(),
                old(self).buf@.len() as int,
                spec_token_or_default(label@),
                true,
            ),
            final(self).folds == old(self).folds,
            final(self).goto_def == old(self).goto_def,
            final(self).code_actions == old(self).code_actions,
    {
        let token = get_or_default(label);
        self.labels.push(self.buf.as_str(), token);
        proof {
            lemma_stack_wf_push(
                old(self).labels.m(),
                self.buf@.len() as int,
                spec_token_or_default(label@),
                true,
            );
        }
    }

    /// Ends the most recently begun highlight annotation, reopening the
    /// enclosing one at the close offset. Ending a label with none open is a
    /// programming error, which the contract rules out.
    pub fn pop_label(&mut self)
        requires
            old(self).wf(),
            old(self).labels.m().pending.len() > 0,
        ensures
            final(self).wf(),
            final(self).buf == old(self).buf,
            final(self).labels.m() == stack_pop(
                old(self).labels.m(),
                trimmed_len(old(self).buf@) as int,
                true,
            ),
            final(self).folds == old(self).folds,
            final(self).goto_def == old(self).goto_def,
            final(self).code_actions == old(self).code_actions,
    {
        self.labels.pop(self.buf.as_str());
        proof {
            lemma_trimmed_props(self.buf@);
            lemma_stack_wf_pop(
                old(self).labels.m(),
                self.buf@.len() as int,
                trimmed_len(self.buf@) as int,
                true,
            );
        }
    }

    /// Begins a folding region at the current offset.
    pub fn push_fold(&mut self)
        requires
            old(self).wf(),
        ensures
            final(self).wf(),
            final(self).buf == old(self).buf,
            final(self).folds.m() == stack_push(
                old(self).folds.m(),
                old(self).buf@.len() as int,
                (),
                false,
            ),
            final(self).labels == old(self).labels,
            final(self).goto_def == old(self).goto_def,
            final(self).code_actions == old(self).code_actions,
    {
        self.folds.push(self.buf.as_str(), ());
        proof {
            lemma_stack_wf_push(old(self).folds.m(), self.buf@.len() as int, (), false);
        }
    }

    /// Closes the most recently begun folding region at the trimmed offset.
    pub fn pop_fold(&mut self)
        requires
            old(self).wf(),
            old(self).folds.m().pending.len() > 0,
        ensures
            final(self).wf(),
            final(self).buf == old(self).buf,
            final(self).folds.m() == stack_pop(
                old(self).folds.m(),
                trimmed_len(old(self).buf@) as int,
                false,
            ),
            final(self).labels == old(self).labels,
            final(self).goto_def == old(self).goto_def,
            final(self).code_actions == old(self).code_actions,
    {
        self.folds.pop(self.buf.as_str());
        proof {
            lemma_trimmed_props(self.buf@);
            lemma_stack_wf_pop(
                old(self).folds.m(),
                self.buf@.len() as int,
                trimmed_len(self.buf@) as int,
                false,
            );
        }
    }

    /// Begins a jump-target annotation at the current offset.
    pub fn push_goto(&mut self, target: GotoDefinitionTarget)
        requires
            old(self).wf(),
        ensures
            final(self).wf(),
            final(self).buf == old(self).buf,
            final(self).goto_def.m() == stack_push(
                old(self).goto_def.m(),
                old(self).buf@.len() as int,
                target,
                false,
            ),
            final(self).labels == old(self).labels,
            final(self).folds == old(self).folds,
            final(self).code_actions == old(self).code_actions,
    {
        proof {
            lemma_stack_wf_push(old(self).goto_def.m(), self.buf@.len() as int, target, false);
        }
        self.goto_def.push(self.buf.as_str(), target);
    }

    /// Closes the most recently begun jump-target annotation.
    pub fn pop_goto(&mut self)
        requires
            old(self).wf(),
            old(self).goto_def.m().pending.len() > 0,
        ensures
            final(self).wf(),
            final(self).buf == old(self).buf,
            final(self).goto_def.m() == stack_pop(
                old(self).goto_def.m(),
                trimmed_len(old(self).buf@) as int,
                false,
            ),
            final(self).labels == old(self).labels,
            final(self).folds == old(self).folds,
            final(self).code_actions == old(self).code_actions,
    {
        self.goto_def.pop(self.buf.as_str());
        proof {
            lemma_trimmed_props(self.buf@);
            lemma_stack_wf_pop(
                old(self).goto_def.m(),
                self.buf@.len() as int,
                trimmed_len(self.buf@) as int,
                false,
            );
        }
    }

    /// Attaches one available action to the region begun here.
    pub fn push_code_action(&mut self, code_action: CodeAction)
        requires
            old(self).wf(),
        ensures
            final(self).wf(),
            final(self).buf == old(self).buf,
            final(self).code_actions.m().closed == old(self).code_actions.m().closed,
            final(self).code_actions.m().pending.len() == old(self).code_actions.m().pending.len()
                + 1,
            forall|i: int|
                0 <= i < old(self).code_actions.m().pending.len() ==> final(
                    self
                ).code_actions.m().pending[i] == old(self).code_actions.m().pending[i],
            final(self).code_actions.m().pending.last().0 == old(self).buf@.len() as int,
            final(self).code_actions.m().pending.last().1@ == seq![code_action],
            final(self).labels == old(self).labels,
            final(self).folds == old(self).folds,
            final(self).goto_def == old(self).goto_def,
    {
        let mut actions: Vec<CodeAction> = Vec::new();
        actions.push(code_action);
        self.push_code_actions(actions);
    }

    /// Attaches a list of available actions to the region begun here.
    pub fn push_code_actions(&mut self, code_actions: Vec<CodeAction>)
        requires
            old(self).wf(),
        ensures
            final(self).wf(),
            final(self).buf == old(self).buf,
            final(self).code_actions.m() == stack_push(
                old(self).code_actions.m(),
                old(self).buf@.len() as int,
                code_actions,
                false,
            ),
            final(self).labels == old(self).labels,
            final(self).folds == old(self).folds,
            final(self).goto_def == old(self).goto_def,
    {
        proof {
            lemma_stack_wf_push(
                old(self).code_actions.m(),
                self.buf@.len() as int,
                code_actions,
                false,
            );
        }
        self.code_actions.push(self.buf.as_str(), code_actions);
    }

    /// Closes the most recently begun action region at the trimmed offset.
    pub fn pop_code_action(&mut self)
        requires
            old(self).wf(),
            old(self).code_actions.m().pending.len() > 0,
        ensures
            final(self).wf(),
            final(self).buf == old(self).buf,
            final(self).code_actions.m() == stack_pop(
                old(self).code_actions.m(),
                trimmed_len(old(self).buf@) as int,
                false,
            ),
            final(self).labels == old(self).labels,
            final(self).folds == old(self).folds,
            final(self).goto_def == old(self).goto_def,
    {
        self.code_actions.pop(self.buf.as_str());
        proof {
            lemma_trimmed_props(self.buf@);
            lemma_stack_wf_pop(
                old(self).code_actions.m(),
                self.buf@.len() as int,
                trimmed_len(self.buf@) as int,
                false,
            );
        }
    }

    /// A scope that will write one piece of text under the given highlight
    /// label token.
    pub fn labelled(&self, token_type: TokenType) -> (w: ScopedWriter)
        ensures
            w.payload == ScopePayload::Label(token_type),
    {
        ScopedWriter { payload: ScopePayload::Label(token_type) }
    }

    /// A scope that will write one piece of text as a folding region.
    pub fn folding(&self) -> (w: ScopedWriter)
        ensures
            w.payload == ScopePayload::Fold,
    {
        ScopedWriter { payload: ScopePayload::Fold }
    }

    /// A scope that will write one piece of text as a jump target.
    pub fn goto_def(&self, target: GotoDefinitionTarget) -> (w: ScopedWriter)
        ensures
            w.payload == ScopePayload::Jump(target),
    {
        ScopedWriter { payload: ScopePayload::Jump(target) }
    }
}

/// What one scoped write will annotate its text with.
#[derive(Debug)]
pub enum ScopePayload {
    Label(TokenType),
    Fold,
    Jump(GotoDefinitionTarget),
}

/// The state of one overlay stack after a scoped write: an annotation pushed
/// at `len0`, the text written, and the annotation closed against the full
/// buffer.
pub open spec fn scoped_write<T>(
    m: StackModel<T>,
    len0: int,
    data: T,
    full: Seq<char>,
    disjoint: bool,
) -> StackModel<T> {
    stack_pop(stack_push(m, len0, data, disjoint), trimmed_len(full) as int, disjoint)
}

/// A one-shot annotation scope over a [`PageWriter`]: acquiring it begins an
/// annotation; its single write appends content and ends the annotation.
/// The scope is consumed by the write, so a second write through the same
/// scope is impossible, and the close always happens.
pub struct ScopedWriter {
    pub payload: ScopePayload,
}

impl ScopedWriter {
    /// Writes the scope's one piece of content: begins the annotation,
    /// appends `text`, and guarantees the annotation closes.
    pub fn write_fmt(self, out: &mut PageWriter, text: &str)
        requires
            old(out).wf(),
        ensures
            final(out).wf(),
            final(out).buf@ == old(out).buf@ + text@,
            match self.payload {
                ScopePayload::Label(t) => {
                    &&& final(out).labels.m() == scoped_write(
                        old(out).labels.m(),
                        old(out).buf@.len() as int,
                        t,
                        old(out).buf@ + text@,
                        true,
                    )
                    &&& final(out).folds == old(out).folds
                    &&& final(out).goto_def == old(out).goto_def
                    &&& final(out).code_actions == old(out).code_actions
                },
                ScopePayload::Fold => {
                    &&& final(out).folds.m() == scoped_write(
                        old(out).folds.m(),
                        old(out).buf@.len() as int,
                        (),
                        old(out).buf@ + text@,
                        false,
                    )
                    &&& final(out).labels == old(out).labels
                    &&& final(out).goto_def == old(out).goto_def
                    &&& final(out).code_actions == old(out).code_actions
                },
                ScopePayload::Jump(target) => {
                    &&& final(out).goto_def.m() == scoped_write(
                        old(out).goto_def.m(),
                        old(out).buf@.len() as int,
                        target,
                        old(out).buf@ + text@,
                        false,
                    )
                    &&& final(out).labels == old(out).labels
                    &&& final(out).folds == old(out).folds
                    &&& final(out).code_actions == old(out).code_actions
                },
            },
    {
        match self.payload {
            ScopePayload::Label(t) => {
                out.labels.push(out.buf.as_str(), t);
                append_str(&mut out.buf, text);
                out.labels.pop(out.buf.as_str());
                proof {
                    let b1 = out.buf@.len() as int;
                    lemma_trimmed_props(out.buf@);
                    lemma_stack_wf_push(old(out).labels.m(), old(out).buf@.len() as int, t, true);
                    lemma_stack_wf_grow(
                        stack_push(old(out).labels.m(), old(out).buf@.len() as int, t, true),
                        old(out).buf@.len() as int,
                        b1,
                    );
                    lemma_stack_wf_pop(
                        stack_push(old(out).labels.m(), old(out).buf@.len() as int, t, true),
                        b1,
                        trimmed_len(out.buf@) as int,
                        true,
                    );
                    lemma_stack_wf_grow(out.folds.m(), old(out).buf@.len() as int, b1);
                    lemma_stack_wf_grow(out.goto_def.m(), old(out).buf@.len() as int, b1);
                    lemma_stack_wf_grow(out.code_actions.m(), old(out).buf@.len() as int, b1);
                }
            },
            ScopePayload::Fold => {
                out.folds.push(out.buf.as_str(), ());
                append_str(&mut out.buf, text);
                out.folds.pop(out.buf.as_str());
                proof {
                    let b1 = out.buf@.len() as int;
                    lemma_trimmed_props(out.buf@);
                    lemma_stack_wf_push(old(out).folds.m(), old(out).buf@.len() as int, (), false);
                    lemma_stack_wf_grow(
                        stack_push(old(out).folds.m(), old(out).buf@.len() as int, (), false),
                        old(out).buf@.len() as int,
                        b1,
                    );
                    lemma_stack_wf_pop(
                        stack_push(old(out).folds.m(), old(out).buf@.len() as int, (), false),
                        b1,
                        trimmed_len(out.buf@) as int,
                        false,
                    );
                    lemma_stack_wf_grow(out.labels.m(), old(out).buf@.len() as int, b1);
                    lemma_stack_wf_grow(out.goto_def.m(), old(out).buf@.len() as int, b1);
                    lemma_stack_wf_grow(out.code_actions.m(), old(out).buf@.len() as int, b1);
                }
            },
            ScopePayload::Jump(target) => {
                let ghost tg = target;
                out.goto_def.push(out.buf.as_str(), target);
                append_str(&mut out.buf, text);
                out.goto_def.pop(out.buf.as_str());
                proof {
                    let b1 = out.buf@.len() as int;
                    lemma_trimmed_props(out.buf@);
                    lemma_stack_wf_push(
                        old(out).goto_def.m(),
                        old(out).buf@.len() as int,
                        tg,
                        false,
                    );
                    lemma_stack_wf_grow(
                        stack_push(old(out).goto_def.m(), old(out).buf@.len() as int, tg, false),
                        old(out).buf@.len() as int,
                        b1,
                    );
                    lemma_stack_wf_pop(
                        stack_push(old(out).goto_def.m(), old(out).buf@.len() as int, tg, false),
                        b1,
                        trimmed_len(out.buf@) as int,
                        false,
                    );
                    lemma_stack_wf_grow(out.labels.m(), old(out).buf@.len() as int, b1);
                    lemma_stack_wf_grow(out.folds.m(), old(out).buf@.len() as int, b1);
                    lemma_stack_wf_grow(out.code_actions.m(), old(out).buf@.len() as int, b1);
                }
            },
        }
    }
}

/// `x` inserted after the last entry whose span starts at or before
/// `x`'s span: one step of a stable sort by start offset.
pub open spec fn insert_by_start<T>(s: Seq<(Span, T)>, x: (Span, T)) -> Seq<(Span, T)>
    decreases s.len(),
{
    if s.len() == 0 {
        seq![x]
    } else if s.last().0.start <= x.0.start {
        s.push(x)
    } else {
        insert_by_start(s.drop_last(), x).push(s.last())
    }
}

/// The entries of `s` stably sorted by span start offset.
pub open spec fn sort_by_start<T>(s: Seq<(Span, T)>) -> Seq<(Span, T)>
    decreases s.len(),
{
    if s.len() == 0 {
        s
    } else {
        insert_by_start(sort_by_start(s.drop_last()), s.last())
    }
}

/// One action region paired with each of its actions.
pub open spec fn span_pairs(p: (Span, Vec<CodeAction>)) -> Seq<(Span, CodeAction)> {
    Seq::new(p.1@.len(), |i: int| (p.0, p.1@[i]))
}

/// Every action region flattened to one entry per action, region order and
/// action order both kept.
pub open spec fn expand_actions(s: Seq<(Span, Vec<CodeAction>)>) -> Seq<(Span, CodeAction)>
    decreases s.len(),
{
    if s.len() == 0 {
        Seq::empty()
    } else {
        expand_actions(s.drop_last()) + span_pairs(s.last())
    }
}

proof fn lemma_insert_bounds<T>(s: Seq<(Span, T)>, x: (Span, T), blen: int)
    requires
        spans_bounded(s, blen),
        x.0.start <= x.0.end,
        x.0.end <= blen,
    ensures
        spans_bounded(insert_by_start(s, x), blen),
    decreases s.len(),
{
    if s.len() == 0 {
    } else if s.last().0.start <= x.0.start {
    } else {
        assert(spans_bounded(s.drop_last(), blen)) by {
            assert(forall|i: int|
                0 <= i < s.len() - 1 ==> #[trigger] s.drop_last()[i] == s[i]);
        }
        lemma_insert_bounds(s.drop_last(), x, blen);
    }
}

proof fn lemma_sort_bounds<T>(s: Seq<(Span, T)>, blen: int)
    requires
        spans_bounded(s, blen),
    ensures
        spans_bounded(sort_by_start(s), blen),
    decreases s.len(),
{
    if s.len() > 0 {
        assert(spans_bounded(s.drop_last(), blen)) by {
            assert(forall|i: int|
                0 <= i < s.len() - 1 ==> #[trigger] s.drop_last()[i] == s[i]);
        }
        lemma_sort_bounds(s.drop_last(), blen);
        lemma_insert_bounds(sort_by_start(s.drop_last()), s.last(), blen);
    }
}

proof fn lemma_expand_bounds(s: Seq<(Span, Vec<CodeAction>)>, blen: int)
    requires
        spans_bounded(s, blen),
    ensures
        spans_bounded(expand_actions(s), blen),
    decreases s.len(),
{
    if s.len() > 0 {
        assert(spans_bounded(s.drop_last(), blen)) by {
            assert(forall|i: int|
                0 <= i < s.len() - 1 ==> #[trigger] s.drop_last()[i] == s[i]);
        }
        lemma_expand_bounds(s.drop_last(), blen);
    }
}

/// Entries ordered by start offset.
pub open spec fn sorted_by_start<T>(s: Seq<(Span, T)>) -> bool {
    forall|i: int, j: int|
        #![trigger s[i], s[j]]
        0 <= i <= j < s.len() ==> s[i].0.start <= s[j].0.start
}

proof fn lemma_insert_start_ub<T>(s: Seq<(Span, T)>, x: (Span, T), b: int)
    requires
        forall|i: int| 0 <= i < s.len() ==> (#[trigger] s[i]).0.start <= b,
        x.0.start <= b,
    ensures
        forall|i: int|
            0 <= i < insert_by_start(s, x).len() ==> (#[trigger] insert_by_start(
                s,
                x,
            )[i]).0.start <= b,
    decreases s.len(),
{
    if s.len() == 0 {
        assert(insert_by_start(s, x)[0] == x);
    } else if s.last().0.start <= x.0.start {
        assert(forall|i: int| 0 <= i < s.len() ==> #[trigger] s.push(x)[i] == s[i]);
        assert(s.push(x)[s.len() as int] == x);
    } else {
        assert(forall|i: int|
            0 <= i < s.len() - 1 ==> #[trigger] s.drop_last()[i] == s[i]);
        lemma_insert_start_ub(s.drop_last(), x, b);
        let inner = insert_by_start(s.drop_last(), x);
        assert(forall|i: int|
            0 <= i < inner.len() ==> #[trigger] inner.push(s.last())[i] == inner[i]);
        assert(inner.push(s.last())[inner.len() as int] == s.last());
    }
}

proof fn lemma_insert_sorted<T>(s: Seq<(Span, T)>, x: (Span, T))
    requires
        sorted_by_start(s),
    ensures
        sorted_by_start(insert_by_start(s, x)),
        insert_by_start(s, x).to_multiset() == s.to_multiset().insert(x),
    decreases s.len(),
{
    broadcast use vstd::seq_lib::group_to_multiset_ensures;

    if s.len() == 0 {
        assert(seq![x] =~= Seq::<(Span, T)>::empty().push(x));
        assert(Seq::<(Span, T)>::empty().to_multiset() =~= Multiset::<(Span, T)>::empty());
        assert(insert_by_start(s, x).to_multiset() =~= s.to_multiset().insert(x));
    } else if s.last().0.start <= x.0.start {
        assert(sorted_by_start(s.push(x))) by {
            assert(forall|i: int| 0 <= i < s.len() ==> #[trigger] s.push(x)[i] == s[i]);
            assert(s.push(x).last() == x);
        }
    } else {
        let d = s.drop_last();
        assert(forall|i: int| 0 <= i < s.len() - 1 ==> #[trigger] d[i] == s[i]);
        assert(sorted_by_start(d));
        lemma_insert_sorted(d, x);
        lemma_insert_start_ub(d, x, s.last().0.start as int);
        let inner = insert_by_start(d, x);
        assert(sorted_by_start(inner.push(s.last()))) by {
            assert(forall|i: int|
                0 <= i < inner.len() ==> #[trigger] inner.push(s.last())[i] == inner[i]);
            assert(inner.push(s.last()).last() == s.last());
        }
        assert(s =~= d.push(s.last()));
        assert(inner.push(s.last()).to_multiset() =~= d.to_multiset().insert(x).insert(s.last()));
        assert(d.to_multiset().insert(x).insert(s.last()) =~= d.to_multiset().insert(
            s.last(),
        ).insert(x));
        assert(s.to_multiset() =~= d.to_multiset().insert(s.last()));
    }
}

/// Law: the sort that `finish` applies to the highlight list orders the
/// entries by start offset and keeps exactly the spans the writer produced.
pub proof fn lemma_sort_by_start_sorted<T>(s: Seq<(Span, T)>)
    ensures
        sorted_by_start(sort_by_start(s)),
        sort_by_start(s).to_multiset() == s.to_multiset(),
    decreases s.len(),
{
    broadcast use vstd::seq_lib::group_to_multiset_ensures;

    if s.len() == 0 {
        assert(sorted_by_start(sort_by_start(s)));
    } else {
        let d = s.drop_last();
        lemma_sort_by_start_sorted(d);
        lemma_insert_sorted(sort_by_start(d), s.last());
        assert(s =~= d.push(s.last()));
        assert(s.to_multiset() =~= d.to_multiset().insert(s.last()));
    }
}

fn insert_label_sorted(v: Vec<(Span, TokenType)>, x: (Span, TokenType)) -> (r: Vec<
    (Span, TokenType),
>)
    ensures
        r@ == insert_by_start(v@, x),
    decreases v@.len(),
{
    let ghost v0 = v@;
    let mut v = v;
    let n = v.len();
    if n == 0 {
        v.push(x);
        proof {
            assert(v@ =~= insert_by_start(v0, x));
        }
        v
    } else {
        let last = v[n - 1];
        if last.0.start <= x.0.start {
            v.push(x);
            v
        } else {
            v.pop();
            let mut r = insert_label_sorted(v, x);
            r.push(last);
            proof {
                assert(r@ =~= insert_by_start(v0, x));
            }
            r
        }
    }
}

fn sort_labels(v: Vec<(Span, TokenType)>) -> (r: Vec<(Span, TokenType)>)
    ensures
        r@ == sort_by_start(v@),
    decreases v@.len(),
{
    let ghost v0 = v@;
    let mut v = v;
    let p = v.pop();
    match p {
        None => v,
        Some(x) => {
            let s = sort_labels(v);
            insert_label_sorted(s, x)
        },
    }
}

fn reversed<X>(v: Vec<X>) -> (r: Vec<X>)
    ensures
        r@.len() == v@.len(),
        forall|i: int| 0 <= i < v@.len() ==> r@[i] == v@[v@.len() - 1 - i],
{
    let ghost v0 = v@;
    let mut v = v;
    let mut r: Vec<X> = Vec::new();
    while v.len() > 0
        invariant
            v@ =~= v0.subrange(0, v@.len() as int),
            r@.len() + v@.len() == v0.len(),
            forall|i: int| 0 <= i < r@.len() ==> r@[i] == v0[v0.len() - 1 - i],
        decreases v@.len(),
    {
        let p = v.pop();
        match p {
            Some(x) => {
                proof {
                    assert(x == v0[v@.len() as int]);
                    assert(v@ =~= v0.subrange(0, v@.len() as int));
                }
                r.push(x);
            },
            None => {
                proof {
                    assert(false);
                }
            },
        }
    }
    r
}

fn expand_actions_exec(v: Vec<(Span, Vec<CodeAction>)>) -> (r: Vec<(Span, CodeAction)>)
    ensures
        r@ == expand_actions(v@),
    decreases v@.len(),
{
    let ghost v0 = v@;
    let mut v = v;
    let p = v.pop();
    match p {
        None => Vec::new(),
        Some(pair) => {
            let mut r = expand_actions_exec(v);
            let (sp, actions) = pair;
            let ghost a0 = actions@;
            let mut rev = reversed(actions);
            proof {
                assert(r@ + Seq::new((a0.len() - rev@.len()) as nat, |i: int| (sp, a0[i])) =~= r@);
            }
            while rev.len() > 0
                invariant
                    rev@.len() <= a0.len(),
                    forall|i: int| 0 <= i < rev@.len() ==> rev@[i] == a0[a0.len() - 1 - i],
                    r@ =~= expand_actions(v0.drop_last()) + Seq::new(
                        (a0.len() - rev@.len()) as nat,
                        |i: int| (sp, a0[i]),
                    ),
                decreases rev@.len(),
            {
                let ghost k = a0.len() - rev@.len();
                let q = rev.pop();
                match q {
                    Some(a) => {
                        proof {
                            assert(a == a0[k as int]);
                        }
                        r.push((sp, a));
                        proof {
                            assert(Seq::new((k + 1) as nat, |i: int| (sp, a0[i])) =~= Seq::new(
                                k as nat,
                                |i: int| (sp, a0[i]),
                            ).push((sp, a0[k as int])));
                            assert(r@ =~= expand_actions(v0.drop_last()) + Seq::new(
                                (k + 1) as nat,
                                |i: int| (sp, a0[i]),
                            ));
                        }
                    },
                    None => {
                        proof {
                            assert(false);
                        }
                    },
                }
            }
            proof {
                assert(Seq::new(a0.len(), |i: int| (sp, a0[i])) =~= span_pairs(v0.last()));
                assert(r@ =~= expand_actions(v0));
            }
            r
        },
    }
}

impl PageWriter {
    /// Freezes the builder into an immutable [`Page`]: the highlight list is
    /// stably sorted by start offset (disjoint-kind closing can finish spans
    /// out of order), action regions are flattened to one entry per action,
    /// and the other overlay lists are taken as completed.
    pub fn finish(self) -> (p: Page)
        requires
            self.wf(),
        ensures
            p.text == self.buf,
            p.labels@ == sort_by_start(self.labels.done@),
            sorted_by_start(p.labels@),
            p.folding_ranges@ == self.folds.done@,
            p.goto_def@ == self.goto_def.done@,
            p.code_actions@ == expand_actions(self.code_actions.done@),
            p.wf(),
    {
        proof {
            lemma_sort_by_start_sorted(self.labels.done@);
        }
        let PageWriter { buf, labels, folds, goto_def, code_actions } = self;
        let ghost blen = buf@.len() as int;
        proof {
            assert forall|i: int| 0 <= i < labels.done@.len() implies (
            #[trigger] labels.done@[i]).0.start <= labels.done@[i].0.end && labels.done@[i].0.end
                <= blen by {
                assert(self.labels.m().closed[i] == (
                    SpanModel {
                        start: labels.done@[i].0.start as int,
                        end: labels.done@[i].0.end as int,
                    },
                    labels.done@[i].1,
                ));
            }
            assert forall|i: int| 0 <= i < folds.done@.len() implies (
            #[trigger] folds.done@[i]).0.start <= folds.done@[i].0.end && folds.done@[i].0.end
                <= blen by {
                assert(self.folds.m().closed[i] == (
                    SpanModel {
                        start: folds.done@[i].0.start as int,
                        end: folds.done@[i].0.end as int,
                    },
                    folds.done@[i].1,
                ));
            }
            assert forall|i: int| 0 <= i < goto_def.done@.len() implies (
            #[trigger] goto_def.done@[i]).0.start <= goto_def.done@[i].0.end
                && goto_def.done@[i].0.end <= blen by {
                assert(self.goto_def.m().closed[i] == (
                    SpanModel {
                        start: goto_def.done@[i].0.start as int,
                        end: goto_def.done@[i].0.end as int,
                    },
                    goto_def.done@[i].1,
                ));
            }
            assert forall|i: int| 0 <= i < code_actions.done@.len() implies (
            #[trigger] code_actions.done@[i]).0.start <= code_actions.done@[i].0.end
                && code_actions.done@[i].0.end <= blen by {
                assert(self.code_actions.m().closed[i] == (
                    SpanModel {
                        start: code_actions.done@[i].0.start as int,
                        end: code_actions.done@[i].0.end as int,
                    },
                    code_actions.done@[i].1,
                ));
            }
            lemma_sort_bounds(labels.done@, blen);
            lemma_expand_bounds(code_actions.done@, blen);
        }
        let sorted = sort_labels(labels.done);
        let expanded = expand_actions_exec(code_actions.done);
        Page {
            text: buf,
            labels: sorted,
            folding_ranges: folds.done,
            goto_def: goto_def.done,
            code_actions: expanded,
        }
    }
}

impl CodeAction {
    /// The action that moves the whole change set into the first commit.
    pub fn move_to_commit() -> (r: CodeAction)
        ensures
            r.title@ == "Move to first commit"@,
            r.command@ == "todo"@,
            r.args@ == Seq::<String>::empty(),
    {
        CodeAction {
            title: String::from_str("Move to first commit"),
            command: String::from_str("todo"),
            args: Vec::new(),
        }
    }

    /// The action that moves one file's change into the first commit.
    pub fn move_file_to_commit(pretty_path: String) -> (r: CodeAction)
        ensures
            r.title@ == "Move "@ + pretty_path@ + " to first commit"@,
            r.command@ == "todo"@,
            r.args@.len() == 1,
            r.args@[0] == pretty_path,
    {
        let mut title = String::from_str("Move ");
        append_str(&mut title, pretty_path.as_str());
        append_str(&mut title, " to first commit");
        let mut args: Vec<String> = Vec::new();
        args.push(pretty_path);
        CodeAction { title, command: String::from_str("todo"), args }
    }

    /// The action that abandons the commit with the given change id.
    pub fn abandon(change_id: String) -> (r: CodeAction)
        ensures
            r.title@ == "Abandon commit "@ + change_id@,
            r.command@ == "todo"@,
            r.args@.len() == 1,
            r.args@[0] == change_id,
    {
        let mut title = String::from_str("Abandon commit ");
        append_str(&mut title, change_id.as_str());
        let mut args: Vec<String> = Vec::new();
        args.push(change_id);
        CodeAction { title, command: String::from_str("todo"), args }
    }

    /// The action that creates a new commit at the given change id.
    pub fn new(change_id: String) -> (r: CodeAction)
        ensures
            r.title@ == "Create new commit at "@ + change_id@,
            r.command@ == "todo"@,
            r.args@.len() == 1,
            r.args@[0] == change_id,
    {
        let mut title = String::from_str("Create new commit at ");
        append_str(&mut title, change_id.as_str());
        let mut args: Vec<String> = Vec::new();
        args.push(change_id);
        CodeAction { title, command: String::from_str("todo"), args }
    }

    /// The action that annotates the file before this commit.
    pub fn annotate_before() -> (r: CodeAction)
        ensures
            r.title@ == "Annotate before this commit"@,
            r.command@ == "todo"@,
            r.args@ == Seq::<String>::empty(),
    {
        CodeAction {
            title: String::from_str("Annotate before this commit"),
            command: String::from_str("todo"),
            args: Vec::new(),
        }
    }
}

} // verus!
