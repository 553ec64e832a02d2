//! The live document: the editor's current text for one URI together with
//! a line index, and the query operations answered from a stored page —
//! offset/position translation, semantic-token delta encoding, folding
//! ranges, jump-target lookup and code-action filtering.
//!
//! Offsets count characters of the text's `Seq<char>` view; a position is a
//! line number and a character column within that line, counted the same
//! way, so every consumer uses one line-counting structure.

use vstd::prelude::*;
use vstd::string::StrSliceExecFns;

use crate::page_writer::CodeAction;
use crate::page_writer::GotoDefinitionTarget;
use crate::page_writer::Page;
use crate::pages::action_view;
use crate::text::clone_string;
use crate::pages::ActionView;
use crate::span::Span;
use crate::text::append_str;

verus! {

/// A line/column position within a document.
#[derive(Clone, Copy, Debug, PartialEq, Eq, Structural)]
pub struct TextPosition {
    pub line: usize,
    pub character: usize,
}

/// The start offset of every line of `text`: offset 0, and the offset after
/// each line break.
pub open spec fn line_starts(text: Seq<char>) -> Seq<int>
    decreases text.len(),
{
    if text.len() == 0 {
        seq![0]
    } else {
        let p = line_starts(text.drop_last());
        if text.last() == '\n' {
            p.push(text.len() as int)
        } else {
            p
        }
    }
}

/// The index of the last line start at or before `off` — the line `off`
/// lies on.
pub open spec fn line_in_starts(st: Seq<int>, off: int) -> int
    decreases st.len(),
{
    if st.len() <= 1 {
        0
    } else if off >= st.last() {
        st.len() - 1
    } else {
        line_in_starts(st.drop_last(), off)
    }
}

pub open spec fn line_of(text: Seq<char>, off: int) -> int {
    line_in_starts(line_starts(text), off)
}

/// The column of `off` within its line.
pub open spec fn col_of(text: Seq<char>, off: int) -> int {
    off - line_starts(text)[line_of(text, off)]
}

/// The character offset of a line/column position: none when the line does
/// not exist or the column leaves the text.
pub open spec fn spec_position_offset(text: Seq<char>, line: int, character: int) -> Option<int> {
    let st = line_starts(text);
    if line < 0 || line >= st.len() {
        None
    } else if st[line] + character > text.len() {
        None
    } else {
        Some(st[line] + character)
    }
}

/// A live document: the current text and its line-start table.
pub struct LineIndex {
    pub text: String,
    pub starts: Vec<usize>,
}

impl LineIndex {
    /// The table is exactly the text's line starts.
    pub open spec fn wf(self) -> bool {
        self.starts@.map_values(|s: usize| s as int) == line_starts(self.text@)
    }

    /// Builds the line index of `text`.
    pub fn new(text: String) -> (r: LineIndex)
        ensures
            r.wf(),
            r.text == text,
    {
        let mut starts: Vec<usize> = Vec::new();
        starts.push(0);
        let len = text.as_str().unicode_len();
        let mut i: usize = 0;
        proof {
            assert(starts@.map_values(|s: usize| s as int) =~= line_starts(
                text@.subrange(0, 0),
            ));
        }
        while i < len
            invariant
                i <= len,
                len as nat == text@.len(),
                starts@.map_values(|s: usize| s as int) == line_starts(text@.subrange(0, i as int)),
            decreases len - i,
        {
            let ghost pre = text@.subrange(0, i as int);
            let c = text.as_str().get_char(i);
            proof {
                let cur = text@.subrange(0, i as int + 1);
                assert(cur.drop_last() =~= pre);
                assert(cur.last() == text@[i as int]);
            }
            if c == '\n' {
                starts.push(i + 1);
                proof {
                    assert(starts@.map_values(|s: usize| s as int) =~= line_starts(
                        pre,
                    ).push(i as int + 1));
                }
            }
            i = i + 1;
        }
        proof {
            assert(text@.subrange(0, text@.len() as int) =~= text@);
        }
        LineIndex { text, starts }
    }

    /// The line and column of a character offset. Total: an offset past the
    /// end of the text answers with the last line.
    pub fn offset_to_position(&self, offset: usize) -> (r: TextPosition)
        requires
            self.wf(),
        ensures
            r.line as int == line_of(self.text@, offset as int),
            r.character as int == col_of(self.text@, offset as int),
    {
        let ghost st = line_starts(self.text@);
        proof {
            lemma_line_starts_zero(self.text@);
            assert(st.len() == self.starts@.len());
        }
        let mut k = self.starts.len() - 1;
        proof {
            assert(st.subrange(0, k as int + 1) =~= st);
        }
        while k > 0
            invariant_except_break
                k < self.starts@.len(),
                self.wf(),
                st == line_starts(self.text@),
                line_in_starts(st, offset as int) == line_in_starts(
                    st.subrange(0, k as int + 1),
                    offset as int,
                ),
            ensures
                k < self.starts@.len(),
                self.wf(),
                st == line_starts(self.text@),
                line_in_starts(st, offset as int) == k as int,
                st[k as int] <= offset || k == 0,
            decreases k,
        {
            let ghost pre = st.subrange(0, k as int + 1);
            if self.starts[k] <= offset {
                proof {
                    assert(pre.last() == st[k as int]);
                    assert(line_in_starts(pre, offset as int) == k as int);
                }
                break;
            }
            proof {
                assert(pre.last() == st[k as int]);
                assert(pre.drop_last() =~= st.subrange(0, k as int));
            }
            k = k - 1;
            proof {
                if k == 0 {
                    assert(line_in_starts(st.subrange(0, 1), offset as int) == 0);
                }
            }
        }
        proof {
            if k == 0 {
                assert(st[0] == 0);
            }
        }
        let character = if self.starts[k] <= offset {
            offset - self.starts[k]
        } else {
            0
        };
        proof {
            assert(st[k as int] == self.starts@[k as int] as int);
            if !(self.starts@[k as int] <= offset) {
                assert(k == 0);
                assert(st[0] == 0);
            }
        }
        TextPosition { line: k, character }
    }

    /// The character offset of a line/column position, when it exists.
    pub fn position_to_offset(&self, pos: TextPosition) -> (r: Option<usize>)
        requires
            self.wf(),
        ensures
            match r {
                Some(off) => spec_position_offset(self.text@, pos.line as int, pos.character as int)
                    == Some(off as int),
                None => spec_position_offset(self.text@, pos.line as int, pos.character as int)
                    is None,
            },
    {
        if pos.line >= self.starts.len() {
            return None;
        }
        let st = self.starts[pos.line];
        let len = self.text.as_str().unicode_len();
        proof {
            lemma_line_starts_bounds(self.text@);
            assert(line_starts(self.text@)[pos.line as int] == st as int);
        }
        if pos.character > len - st {
            return None;
        }
        Some(st + pos.character)
    }
}

pub proof fn lemma_line_starts_zero(text: Seq<char>)
    ensures
        line_starts(text).len() >= 1,
        line_starts(text)[0] == 0,
    decreases text.len(),
{
    if text.len() > 0 {
        lemma_line_starts_zero(text.drop_last());
    }
}

/// Every line start lies within the text, in increasing order.
pub proof fn lemma_line_starts_bounds(text: Seq<char>)
    ensures
        forall|i: int|
            0 <= i < line_starts(text).len() ==> 0 <= #[trigger] line_starts(text)[i]
                <= text.len(),
    decreases text.len(),
{
    if text.len() > 0 {
        lemma_line_starts_bounds(text.drop_last());
        assert forall|i: int|
            0 <= i < line_starts(text).len() implies 0 <= #[trigger] line_starts(text)[i]
            <= text.len() by {
            if text.last() == '\n' && i == line_starts(text).len() - 1 {
            } else {
                assert(line_starts(text)[i] == line_starts(text.drop_last())[i]);
            }
        }
    }
}

/// One semantic token in the protocol's delta encoding, as mathematics.
pub ghost struct SemTok {
    pub delta_line: int,
    pub delta_start: int,
    pub length: int,
    pub token_type: u32,
}

/// One semantic token in the protocol's delta encoding: each token's
/// position is given relative to the one before it.
#[derive(Clone, Copy, Debug, PartialEq, Eq, Structural)]
pub struct SemanticTokenData {
    pub delta_line: usize,
    pub delta_start: usize,
    pub length: usize,
    pub token_type: u32,
}

pub open spec fn sem_tok_view(t: SemanticTokenData) -> SemTok {
    SemTok {
        delta_line: t.delta_line as int,
        delta_start: t.delta_start as int,
        length: t.length as int,
        token_type: t.token_type,
    }
}

/// The delta encoding of the labels from index `i` on, the previous token
/// having sat at `pre_line`/`pre_start`. A token on an earlier line than
/// its predecessor restarts the line delta at zero; a token left of its
/// predecessor on the same line restarts the column delta at its column.
pub open spec fn sem_encode(
    text: Seq<char>,
    labels: Seq<(Span, u32)>,
    i: int,
    pre_line: int,
    pre_start: int,
) -> Seq<SemTok>
    decreases labels.len() - i,
{
    if i < 0 || i >= labels.len() {
        Seq::empty()
    } else {
        let sp = labels[i].0;
        let line = line_of(text, sp.start as int);
        let col = col_of(text, sp.start as int);
        let dl = if line >= pre_line {
            line - pre_line
        } else {
            0
        };
        let ds = if line == pre_line && col >= pre_start {
            col - pre_start
        } else {
            col
        };
        seq![
            SemTok {
                delta_line: dl,
                delta_start: ds,
                length: sp.end - sp.start,
                token_type: labels[i].1,
            },
        ] + sem_encode(text, labels, i + 1, line, col)
    }
}

/// The delta-encoded semantic tokens of a page's highlight list against the
/// live document's line structure.
pub fn semantic_tokens(labels: &Vec<(Span, u32)>, index: &LineIndex) -> (r: Vec<
    SemanticTokenData,
>)
    requires
        index.wf(),
        forall|i: int|
            0 <= i < labels@.len() ==> (#[trigger] labels@[i]).0.start <= labels@[i].0.end,
    ensures
        r@.map_values(|t: SemanticTokenData| sem_tok_view(t)) == sem_encode(
            index.text@,
            labels@,
            0,
            0,
            0,
        ),
{
    let mut r: Vec<SemanticTokenData> = Vec::new();
    let mut i: usize = 0;
    let mut pre_line: usize = 0;
    let mut pre_start: usize = 0;
    proof {
        assert(r@.map_values(|t: SemanticTokenData| sem_tok_view(t))
            =~= Seq::<SemTok>::empty());
    }
    while i < labels.len()
        invariant
            i <= labels@.len(),
            index.wf(),
            forall|j: int|
                0 <= j < labels@.len() ==> (#[trigger] labels@[j]).0.start <= labels@[j].0.end,
            sem_encode(index.text@, labels@, 0, 0, 0) == r@.map_values(
                |t: SemanticTokenData| sem_tok_view(t),
            ) + sem_encode(index.text@, labels@, i as int, pre_line as int, pre_start as int),
        decreases labels@.len() - i,
    {
        let entry = labels[i];
        let sp = entry.0;
        let pos = index.offset_to_position(sp.start);
        let line = pos.line;
        let col = pos.character;
        let dl = if line >= pre_line {
            line - pre_line
        } else {
            0
        };
        let ds = if line == pre_line && col >= pre_start {
            col - pre_start
        } else {
            col
        };
        let tok = SemanticTokenData {
            delta_line: dl,
            delta_start: ds,
            length: sp.end - sp.start,
            token_type: entry.1,
        };
        let ghost prev_map = r@.map_values(|t: SemanticTokenData| sem_tok_view(t));
        r.push(tok);
        proof {
            assert(r@.map_values(|t: SemanticTokenData| sem_tok_view(t)) =~= prev_map.push(
                sem_tok_view(tok),
            ));
            assert(sem_encode(
                index.text@,
                labels@,
                i as int,
                pre_line as int,
                pre_start as int,
            ) == seq![sem_tok_view(tok)] + sem_encode(
                index.text@,
                labels@,
                i as int + 1,
                line as int,
                col as int,
            ));
            assert(prev_map.push(sem_tok_view(tok)) + sem_encode(
                index.text@,
                labels@,
                i as int + 1,
                line as int,
                col as int,
            ) =~= prev_map + (seq![sem_tok_view(tok)] + sem_encode(
                index.text@,
                labels@,
                i as int + 1,
                line as int,
                col as int,
            )));
        }
        pre_line = line;
        pre_start = col;
        i = i + 1;
    }
    proof {
        assert(r@.map_values(|t: SemanticTokenData| sem_tok_view(t)) + Seq::<SemTok>::empty()
            =~= r@.map_values(|t: SemanticTokenData| sem_tok_view(t)));
    }
    r
}

/// The line pair of each folding region, in order.
pub open spec fn fold_lines(text: Seq<char>, folds: Seq<(Span, ())>) -> Seq<(int, int)> {
    folds.map_values(
        |p: (Span, ())| (line_of(text, p.0.start as int), line_of(text, p.0.end as int)),
    )
}

/// The start and end line of every folding region of a page.
pub fn folding_lines(folds: &Vec<(Span, ())>, index: &LineIndex) -> (r: Vec<(usize, usize)>)
    requires
        index.wf(),
    ensures
        r@.map_values(|p: (usize, usize)| (p.0 as int, p.1 as int)) == fold_lines(
            index.text@,
            folds@,
        ),
{
    let mut r: Vec<(usize, usize)> = Vec::new();
    let mut i: usize = 0;
    while i < folds.len()
        invariant
            i <= folds@.len(),
            index.wf(),
            r@.map_values(|p: (usize, usize)| (p.0 as int, p.1 as int)) =~= fold_lines(
                index.text@,
                folds@.subrange(0, i as int),
            ),
        decreases folds@.len() - i,
    {
        let ghost pre = folds@.subrange(0, i as int);
        let ghost cur = folds@.subrange(0, i as int + 1);
        let sp = folds[i].0;
        let a = index.offset_to_position(sp.start);
        let b = index.offset_to_position(sp.end);
        let ghost prev_map = r@.map_values(|p: (usize, usize)| (p.0 as int, p.1 as int));
        r.push((a.line, b.line));
        proof {
            assert(forall|j: int| 0 <= j < i ==> #[trigger] cur[j] == pre[j]);
            assert(cur[i as int] == folds@[i as int]);
            assert(r@.map_values(|p: (usize, usize)| (p.0 as int, p.1 as int)) =~= prev_map.push(
                (a.line as int, b.line as int),
            ));
            assert(fold_lines(index.text@, cur) =~= prev_map.push(
                (a.line as int, b.line as int),
            ));
        }
        i = i + 1;
    }
    proof {
        assert(folds@.subrange(0, folds@.len() as int) =~= folds@);
    }
    r
}

/// The index of the jump target covering `off` that was pushed last.
pub open spec fn goto_at(s: Seq<(Span, GotoDefinitionTarget)>, off: int) -> Option<int>
    decreases s.len(),
{
    if s.len() == 0 {
        None
    } else if s.last().0.spec_contains(off) {
        Some(s.len() - 1)
    } else {
        goto_at(s.drop_last(), off)
    }
}

/// Where a jump from the given origin leads.
#[derive(Debug)]
pub struct GotoAnswer {
    pub origin_start: TextPosition,
    pub origin_end: TextPosition,
    pub target: String,
}

/// Answers a go-to-definition query at `pos` from the stored page: the
/// jump target covering that offset pushed last, if the position resolves
/// and such a target exists.
pub fn goto_target(gotos: &Vec<(Span, GotoDefinitionTarget)>, index: &LineIndex, pos: TextPosition)
    -> (r: Option<GotoAnswer>)
    requires
        index.wf(),
    ensures
        match spec_position_offset(index.text@, pos.line as int, pos.character as int) {
            None => r is None,
            Some(off) => match goto_at(gotos@, off) {
                None => r is None,
                Some(gi) => r matches Some(g) && g.target@ == gotos@[gi].1.target@
                    && g.origin_start.line as int == line_of(index.text@, gotos@[gi].0.start as int)
                    && g.origin_start.character as int == col_of(
                    index.text@,
                    gotos@[gi].0.start as int,
                ) && g.origin_end.line as int == line_of(index.text@, gotos@[gi].0.end as int)
                    && g.origin_end.character as int == col_of(
                    index.text@,
                    gotos@[gi].0.end as int,
                ),
            },
        },
{
    let off = match index.position_to_offset(pos) {
        None => {
            return None;
        },
        Some(o) => o,
    };
    let mut k = gotos.len();
    proof {
        assert(gotos@.subrange(0, gotos@.len() as int) =~= gotos@);
    }
    while k > 0
        invariant_except_break
            k <= gotos@.len(),
            goto_at(gotos@, off as int) == goto_at(gotos@.subrange(0, k as int), off as int),
        ensures
            k <= gotos@.len(),
            k > 0 ==> goto_at(gotos@, off as int) == Some(k as int - 1) && gotos@[k as int
                - 1].0.spec_contains(off as int),
            k == 0 ==> goto_at(gotos@, off as int) is None,
        decreases k,
    {
        let ghost pre = gotos@.subrange(0, k as int);
        proof {
            assert(pre.last() == gotos@[k as int - 1]);
            assert(pre.drop_last() =~= gotos@.subrange(0, k as int - 1));
        }
        let sp = gotos[k - 1].0;
        if sp.contains(off) {
            break;
        }
        k = k - 1;
        proof {
            if k == 0 {
                assert(gotos@.subrange(0, 0) =~= Seq::<(Span, GotoDefinitionTarget)>::empty());
            }
        }
    }
    if k == 0 {
        return None;
    }
    let sp = gotos[k - 1].0;
    let a = index.offset_to_position(sp.start);
    let b = index.offset_to_position(sp.end);
    let target = clone_string(&gotos[k - 1].1.target);
    Some(GotoAnswer { origin_start: a, origin_end: b, target })
}

/// The actions attached to regions that touch `[lo, hi]`, in page order;
/// both interval ends count as touching.
pub open spec fn touching_actions(s: Seq<(Span, CodeAction)>, lo: int, hi: int) -> Seq<CodeAction>
    decreases s.len(),
{
    if s.len() == 0 {
        Seq::empty()
    } else {
        let p = touching_actions(s.drop_last(), lo, hi);
        if lo <= s.last().0.end && s.last().0.start <= hi {
            p.push(s.last().1)
        } else {
            p
        }
    }
}

fn clone_action(a: &CodeAction) -> (r: CodeAction)
    ensures
        action_view(r) == action_view(*a),
{
    let mut args: Vec<String> = Vec::new();
    let mut i: usize = 0;
    while i < a.args.len()
        invariant
            i <= a.args@.len(),
            args@.len() == i,
            forall|j: int| 0 <= j < i ==> (#[trigger] args@[j])@ == a.args@[j]@,
        decreases a.args@.len() - i,
    {
        args.push(clone_string(&a.args[i]));
        i = i + 1;
    }
    let r = CodeAction {
        title: clone_string(&a.title),
        command: clone_string(&a.command),
        args,
    };
    proof {
        assert(action_view(r).args =~= action_view(*a).args);
    }
    r
}

/// Answers a code-action query over the given position range from the
/// stored page: every action whose region touches the range, in page order.
pub fn code_actions_in_range(
    actions: &Vec<(Span, CodeAction)>,
    index: &LineIndex,
    from: TextPosition,
    to: TextPosition,
) -> (r: Option<Vec<CodeAction>>)
    requires
        index.wf(),
    ensures
        match (
            spec_position_offset(index.text@, from.line as int, from.character as int),
            spec_position_offset(index.text@, to.line as int, to.character as int),
        ) {
            (Some(lo), Some(hi)) => r matches Some(v) && v@.map_values(
                |a: CodeAction| action_view(a),
            ) == touching_actions(actions@, lo, hi).map_values(|a: CodeAction| action_view(a)),
            _ => r is None,
        },
{
    let lo = match index.position_to_offset(from) {
        None => {
            return None;
        },
        Some(o) => o,
    };
    let hi = match index.position_to_offset(to) {
        None => {
            return None;
        },
        Some(o) => o,
    };
    let mut r: Vec<CodeAction> = Vec::new();
    let mut i: usize = 0;
    proof {
        assert(actions@.subrange(0, 0) =~= Seq::<(Span, CodeAction)>::empty());
        assert(r@.map_values(|a: CodeAction| action_view(a)) =~= Seq::<ActionView>::empty());
    }
    while i < actions.len()
        invariant
            i <= actions@.len(),
            r@.map_values(|a: CodeAction| action_view(a)) == touching_actions(
                actions@.subrange(0, i as int),
                lo as int,
                hi as int,
            ).map_values(|a: CodeAction| action_view(a)),
        decreases actions@.len() - i,
    {
        let ghost pre = actions@.subrange(0, i as int);
        let ghost cur = actions@.subrange(0, i as int + 1);
        proof {
            assert(cur.drop_last() =~= pre);
            assert(cur.last() == actions@[i as int]);
        }
        let sp = actions[i].0;
        if lo <= sp.end && sp.start <= hi {
            let ghost prev_map = r@.map_values(|a: CodeAction| action_view(a));
            let c = clone_action(&actions[i].1);
            r.push(c);
            proof {
                assert(r@.map_values(|a: CodeAction| action_view(a)) =~= prev_map.push(
                    action_view(c),
                ));
                assert(touching_actions(cur, lo as int, hi as int).map_values(
                    |a: CodeAction| action_view(a),
                ) =~= touching_actions(pre, lo as int, hi as int).map_values(
                    |a: CodeAction| action_view(a),
                ).push(action_view(actions@[i as int].1)));
            }
        }
        i = i + 1;
    }
    proof {
        assert(actions@.subrange(0, actions@.len() as int) =~= actions@);
    }
    Some(r)
}

} // verus!
