//! The page registry: the closed set of page kinds, lookup by name, and one
//! renderer per kind. Each renderer is a pure function from a backend
//! snapshot and an argument list to a [`Page`]; rendering never mutates
//! repository state.

use vstd::prelude::*;
use vstd::string::StrSliceExecFns;
use vstd::string::StringExecFns;

use crate::page_writer::CodeAction;
use crate::page_writer::GotoDefinitionTarget;
use crate::page_writer::PageWriter;
use crate::semantic_token::get_or_default;
use crate::semantic_token::spec_token_or_default;
use crate::stack::stack_pop;
use crate::stack::stack_push;
use crate::stack::StackModel;
use crate::text::append_str;
use crate::text::clone_string;
use crate::text::dec_rep;
use crate::text::dec_string;
use crate::text::str_eq;
use crate::text::trimmed_len;

verus! {

/// The fixed set of page kinds.
#[derive(Clone, Copy, Debug, PartialEq, Eq, Structural)]
pub enum PageKind {
    Status,
    Split,
    Annotate,
    Commit,
}

/// The name under which each kind is registered.
pub open spec fn spec_kind_name(k: PageKind) -> Seq<char> {
    match k {
        PageKind::Status => "status"@,
        PageKind::Split => "split"@,
        PageKind::Annotate => "annotate"@,
        PageKind::Commit => "commit"@,
    }
}

/// The kind registered under `name`, if any: lookup is total over names.
pub open spec fn spec_named(name: Seq<char>) -> Option<PageKind> {
    if name == "status"@ {
        Some(PageKind::Status)
    } else if name == "split"@ {
        Some(PageKind::Split)
    } else if name == "annotate"@ {
        Some(PageKind::Annotate)
    } else if name == "commit"@ {
        Some(PageKind::Commit)
    } else {
        None
    }
}

/// Looks a page kind up by its registered name.
pub fn named(name: &str) -> (r: Option<PageKind>)
    ensures
        r == spec_named(name@),
{
    if str_eq(name, "status") {
        Some(PageKind::Status)
    } else if str_eq(name, "split") {
        Some(PageKind::Split)
    } else if str_eq(name, "annotate") {
        Some(PageKind::Annotate)
    } else if str_eq(name, "commit") {
        Some(PageKind::Commit)
    } else {
        None
    }
}

/// The registered name of a kind.
pub fn kind_name(k: PageKind) -> (r: String)
    ensures
        r@ == spec_kind_name(k),
{
    match k {
        PageKind::Status => String::from_str("status"),
        PageKind::Split => String::from_str("split"),
        PageKind::Annotate => String::from_str("annotate"),
        PageKind::Commit => String::from_str("commit"),
    }
}

/// Names round-trip: looking a kind's registered name up finds that kind.
pub proof fn lemma_named_of_kind_name(k: PageKind)
    ensures
        spec_named(spec_kind_name(k)) == Some(k),
{
    reveal_strlit("status");
    reveal_strlit("split");
    reveal_strlit("annotate");
    reveal_strlit("commit");
    match k {
        PageKind::Status => {},
        PageKind::Split => {
            assert("split"@.len() == 5);
            assert("status"@.len() == 6);
        },
        PageKind::Annotate => {
            assert("annotate"@.len() == 8);
            assert("status"@.len() == 6);
            assert("split"@.len() == 5);
        },
        PageKind::Commit => {
            assert("commit"@.len() == 6);
            assert("status"@.len() == 6);
            assert("split"@.len() == 5);
            assert("annotate"@.len() == 8);
            assert("commit"@[0] == 'c');
            assert("status"@[0] == 's');
        },
    }
}

/// One write of a backend-rendered fragment: template engines emit labeled
/// text through the same sink discipline the page builder uses.
#[derive(Debug, Clone, PartialEq, Eq)]
pub enum FragmentOp {
    PushLabel(String),
    Text(String),
    PopLabel,
}

/// How `b` differs from `a` when a copy or rename was detected.
#[derive(Clone, Copy, Debug, PartialEq, Eq, Structural)]
pub enum CopyKind {
    Copy,
    Rename,
}

/// One entry of a tree diff, as pure data: which sides exist, the detected
/// copy operation, the target-side repository-relative path, the display
/// form of the path, and the rendered diff body for this entry.
#[derive(Debug, Clone, PartialEq, Eq)]
pub struct DiffEntry {
    pub before_present: bool,
    pub after_present: bool,
    pub copy: Option<CopyKind>,
    pub path: String,
    pub pretty_path: String,
    pub diff_ops: Vec<FragmentOp>,
}

/// One commit of the recent log: its change id, its rendered template line,
/// and its rendered diff summary.
#[derive(Debug, Clone, PartialEq, Eq)]
pub struct LogEntry {
    pub change_id: String,
    pub log_ops: Vec<FragmentOp>,
    pub summary_ops: Vec<FragmentOp>,
}

/// The backend snapshot a status page is rendered from.
#[derive(Debug, Clone, PartialEq, Eq)]
pub struct StatusData {
    pub workspace_root: String,
    pub head_ops: Vec<FragmentOp>,
    pub entries: Vec<DiffEntry>,
    pub log: Vec<LogEntry>,
}

/// The backend snapshot a split page is rendered from.
#[derive(Debug, Clone, PartialEq, Eq)]
pub struct SplitData {
    pub workspace_root: String,
    pub entries: Vec<DiffEntry>,
    pub log: Vec<LogEntry>,
}

/// One line of a file annotation: the rendered origin-commit fragment and
/// the line's own text, line break included.
#[derive(Debug, Clone, PartialEq, Eq)]
pub struct AnnotateLine {
    pub commit_ops: Vec<FragmentOp>,
    pub text: String,
}

/// The backend snapshot an annotation page is rendered from.
#[derive(Debug, Clone, PartialEq, Eq)]
pub struct AnnotateData {
    pub lines: Vec<AnnotateLine>,
}

/// A code action reduced to its mathematical content.
pub ghost struct ActionView {
    pub title: Seq<char>,
    pub command: Seq<char>,
    pub args: Seq<Seq<char>>,
}

pub open spec fn action_view(a: CodeAction) -> ActionView {
    ActionView { title: a.title@, command: a.command@, args: a.args@.map_values(|s: String| s@) }
}

/// A stack model with its payloads projected through `f`.
pub open spec fn map_payload<T, U>(m: StackModel<T>, f: spec_fn(T) -> U) -> StackModel<U> {
    StackModel {
        pending: m.pending.map_values(|p: (int, T)| (p.0, f(p.1))),
        closed: m.closed.map_values(|p: (crate::stack::SpanModel, T)| (p.0, f(p.1))),
    }
}

proof fn lemma_map_payload_push<T, U>(
    m: StackModel<T>,
    off: int,
    d: T,
    disjoint: bool,
    f: spec_fn(T) -> U,
)
    ensures
        map_payload(stack_push(m, off, d, disjoint), f) == stack_push(
            map_payload(m, f),
            off,
            f(d),
            disjoint,
        ),
{
    let a = map_payload(stack_push(m, off, d, disjoint), f);
    let b = stack_push(map_payload(m, f), off, f(d), disjoint);
    assert(a.pending =~= b.pending);
    assert(a.closed =~= b.closed);
}

proof fn lemma_map_payload_pop<T, U>(m: StackModel<T>, cut: int, disjoint: bool, f: spec_fn(
    T,
) -> U)
    requires
        m.pending.len() > 0,
    ensures
        map_payload(stack_pop(m, cut, disjoint), f) == stack_pop(map_payload(m, f), cut, disjoint),
{
    let a = map_payload(stack_pop(m, cut, disjoint), f);
    let b = stack_pop(map_payload(m, f), cut, disjoint);
    assert(a.pending =~= b.pending);
    assert(a.closed =~= b.closed);
}

/// The goto payload projection.
pub open spec fn goto_view() -> spec_fn(GotoDefinitionTarget) -> Seq<char> {
    |g: GotoDefinitionTarget| g.target@
}

/// The action-list payload projection.
pub open spec fn actions_view() -> spec_fn(Vec<CodeAction>) -> Seq<ActionView> {
    |v: Vec<CodeAction>| v@.map_values(|a: CodeAction| action_view(a))
}

/// The whole builder state at the level contracts speak of: the text as
/// characters, and each overlay stack with payloads reduced to views.
pub ghost struct PwModel {
    pub buf: Seq<char>,
    pub labels: StackModel<u32>,
    pub folds: StackModel<()>,
    pub gotos: StackModel<Seq<char>>,
    pub actions: StackModel<Seq<ActionView>>,
}

/// The model of a concrete [`PageWriter`].
pub open spec fn pw_view(w: PageWriter) -> PwModel {
    PwModel {
        buf: w.buf@,
        labels: w.labels.m(),
        folds: w.folds.m(),
        gotos: map_payload(w.goto_def.m(), goto_view()),
        actions: map_payload(w.code_actions.m(), actions_view()),
    }
}

pub open spec fn pw_write(m: PwModel, t: Seq<char>) -> PwModel {
    PwModel { buf: m.buf + t, ..m }
}

pub open spec fn pw_push_label(m: PwModel, name: Seq<char>) -> PwModel {
    PwModel {
        labels: stack_push(m.labels, m.buf.len() as int, spec_token_or_default(name), true),
        ..m
    }
}

pub open spec fn pw_pop_label(m: PwModel) -> PwModel {
    PwModel { labels: stack_pop(m.labels, trimmed_len(m.buf) as int, true), ..m }
}

/// A whole scoped label write: push, write, pop.
pub open spec fn pw_labelled(m: PwModel, token: u32, t: Seq<char>) -> PwModel {
    PwModel {
        buf: m.buf + t,
        labels: stack_pop(
            stack_push(m.labels, m.buf.len() as int, token, true),
            trimmed_len(m.buf + t) as int,
            true,
        ),
        ..m
    }
}

pub open spec fn pw_push_fold(m: PwModel) -> PwModel {
    PwModel { folds: stack_push(m.folds, m.buf.len() as int, (), false), ..m }
}

pub open spec fn pw_pop_fold(m: PwModel) -> PwModel {
    PwModel { folds: stack_pop(m.folds, trimmed_len(m.buf) as int, false), ..m }
}

pub open spec fn pw_push_goto(m: PwModel, target: Seq<char>) -> PwModel {
    PwModel { gotos: stack_push(m.gotos, m.buf.len() as int, target, false), ..m }
}

pub open spec fn pw_pop_goto(m: PwModel) -> PwModel {
    PwModel { gotos: stack_pop(m.gotos, trimmed_len(m.buf) as int, false), ..m }
}

pub open spec fn pw_push_actions(m: PwModel, acts: Seq<ActionView>) -> PwModel {
    PwModel { actions: stack_push(m.actions, m.buf.len() as int, acts, false), ..m }
}

pub open spec fn pw_pop_actions(m: PwModel) -> PwModel {
    PwModel { actions: stack_pop(m.actions, trimmed_len(m.buf) as int, false), ..m }
}

/// The effect of one fragment operation on the builder.
pub open spec fn frag_apply(m: PwModel, op: FragmentOp) -> PwModel {
    match op {
        FragmentOp::PushLabel(l) => pw_push_label(m, l@),
        FragmentOp::Text(t) => pw_write(m, t@),
        FragmentOp::PopLabel => pw_pop_label(m),
    }
}

/// The builder after a whole fragment has been written through it.
pub open spec fn replay_frags(m: PwModel, ops: Seq<FragmentOp>) -> PwModel
    decreases ops.len(),
{
    if ops.len() == 0 {
        m
    } else {
        frag_apply(replay_frags(m, ops.drop_last()), ops.last())
    }
}

pub open spec fn frag_delta(op: FragmentOp) -> int {
    match op {
        FragmentOp::PushLabel(_) => 1,
        FragmentOp::Text(_) => 0,
        FragmentOp::PopLabel => -1,
    }
}

/// Label pushes minus label pops over the whole fragment.
pub open spec fn frag_net(ops: Seq<FragmentOp>) -> int
    decreases ops.len(),
{
    if ops.len() == 0 {
        0
    } else {
        frag_net(ops.drop_last()) + frag_delta(ops.last())
    }
}

/// Every pop in the fragment finds a label its own fragment pushed, and the
/// fragment closes everything it opens.
pub open spec fn balanced_frags(ops: Seq<FragmentOp>) -> bool {
    &&& (forall|i: int| 0 <= i <= ops.len() ==> frag_net(#[trigger] ops.subrange(0, i)) >= 0)
    &&& frag_net(ops) == 0
}

proof fn lemma_balanced_pops(ops: Seq<FragmentOp>)
    requires
        forall|i: int| 0 <= i <= ops.len() ==> frag_net(#[trigger] ops.subrange(0, i)) >= 0,
    ensures
        forall|i: int|
            0 <= i < ops.len() && (#[trigger] ops[i]) is PopLabel ==> frag_net(
                ops.subrange(0, i),
            ) >= 1,
{
    assert forall|i: int| 0 <= i < ops.len() && (#[trigger] ops[i]) is PopLabel implies frag_net(
        ops.subrange(0, i),
    ) >= 1 by {
        let pre = ops.subrange(0, i + 1);
        assert(pre.drop_last() =~= ops.subrange(0, i));
        assert(pre.last() == ops[i]);
        assert(frag_net(pre) >= 0);
    }
}

/// Decides whether a fragment is balanced, as [`balanced_frags`] defines it.
pub fn fragment_balanced(ops: &Vec<FragmentOp>) -> (r: bool)
    ensures
        r == balanced_frags(ops@),
{
    let mut depth: usize = 0;
    let mut i: usize = 0;
    proof {
        assert(ops@.subrange(0, 0) =~= Seq::<FragmentOp>::empty());
    }
    while i < ops.len()
        invariant_except_break
            i <= ops@.len(),
            depth <= i,
            depth as int == frag_net(ops@.subrange(0, i as int)),
            forall|j: int| 0 <= j <= i ==> frag_net(#[trigger] ops@.subrange(0, j)) >= 0,
        ensures
            (i < ops@.len() && (exists|j: int|
                0 <= j <= ops@.len() && frag_net(#[trigger] ops@.subrange(0, j)) < 0)) || (i
                == ops@.len() && depth as int == frag_net(ops@.subrange(0, i as int)) && (forall|
                j: int,
            |
                0 <= j <= i ==> frag_net(#[trigger] ops@.subrange(0, j)) >= 0)),
        decreases ops@.len() - i,
    {
        let ghost pre = ops@.subrange(0, i as int);
        let ghost cur = ops@.subrange(0, i as int + 1);
        proof {
            assert(cur.drop_last() =~= pre);
            assert(cur.last() == ops@[i as int]);
        }
        let op = &ops[i];
        match op {
            FragmentOp::PushLabel(_) => {
                depth = depth + 1;
            },
            FragmentOp::Text(_) => {},
            FragmentOp::PopLabel => {
                if depth == 0 {
                    proof {
                        assert(frag_net(cur) < 0);
                    }
                    break;
                }
                depth = depth - 1;
            },
        }
        i = i + 1;
    }
    if i < ops.len() {
        proof {
            assert(!balanced_frags(ops@));
        }
        return false;
    }
    proof {
        assert(ops@.subrange(0, ops@.len() as int) =~= ops@);
    }
    depth == 0
}

/// Writes one backend-rendered fragment through the builder: each operation
/// is applied in order, exactly as [`replay_frags`] states.
pub fn write_fragment(out: &mut PageWriter, ops: &Vec<FragmentOp>)
    requires
        old(out).wf(),
        forall|i: int|
            0 <= i < ops@.len() && (#[trigger] ops@[i]) is PopLabel ==> old(
                out,
            ).labels.m().pending.len() + frag_net(ops@.subrange(0, i)) >= 1,
    ensures
        final(out).wf(),
        pw_view(*final(out)) == replay_frags(pw_view(*old(out)), ops@),
        final(out).labels.m().pending.len() == old(out).labels.m().pending.len() + frag_net(ops@),
        final(out).folds == old(out).folds,
        final(out).goto_def == old(out).goto_def,
        final(out).code_actions == old(out).code_actions,
{
    let ghost m0 = pw_view(*old(out));
    let ghost d0 = old(out).labels.m().pending.len() as int;
    let mut i: usize = 0;
    proof {
        assert(ops@.subrange(0, 0) =~= Seq::<FragmentOp>::empty());
    }
    while i < ops.len()
        invariant
            i <= ops@.len(),
            out.wf(),
            m0 == pw_view(*old(out)),
            d0 == old(out).labels.m().pending.len() as int,
            forall|j: int|
                0 <= j < ops@.len() && (#[trigger] ops@[j]) is PopLabel ==> d0 + frag_net(
                    ops@.subrange(0, j),
                ) >= 1,
            pw_view(*out) == replay_frags(m0, ops@.subrange(0, i as int)),
            out.labels.m().pending.len() as int == d0 + frag_net(ops@.subrange(0, i as int)),
            out.folds == old(out).folds,
            out.goto_def == old(out).goto_def,
            out.code_actions == old(out).code_actions,
        decreases ops@.len() - i,
    {
        let ghost pre = ops@.subrange(0, i as int);
        let ghost cur = ops@.subrange(0, i as int + 1);
        proof {
            assert(cur.drop_last() =~= pre);
            assert(cur.last() == ops@[i as int]);
        }
        let op = &ops[i];
        match op {
            FragmentOp::PushLabel(l) => {
                out.push_label(l.as_str());
            },
            FragmentOp::Text(t) => {
                out.write(t.as_str());
            },
            FragmentOp::PopLabel => {
                out.pop_label();
            },
        }
        i = i + 1;
    }
    proof {
        assert(ops@.subrange(0, ops@.len() as int) =~= ops@);
    }
}

/// The views of the fixed code actions.
pub open spec fn move_to_commit_view() -> ActionView {
    ActionView {
        title: "Move to first commit"@,
        command: "todo"@,
        args: Seq::empty(),
    }
}

pub open spec fn move_file_view(p: Seq<char>) -> ActionView {
    ActionView {
        title: "Move "@ + p + " to first commit"@,
        command: "todo"@,
        args: seq![p],
    }
}

pub open spec fn abandon_view(cid: Seq<char>) -> ActionView {
    ActionView { title: "Abandon commit "@ + cid, command: "todo"@, args: seq![cid] }
}

pub open spec fn new_commit_view(cid: Seq<char>) -> ActionView {
    ActionView { title: "Create new commit at "@ + cid, command: "todo"@, args: seq![cid] }
}

pub open spec fn annotate_before_view() -> ActionView {
    ActionView {
        title: "Annotate before this commit"@,
        command: "todo"@,
        args: Seq::empty(),
    }
}

/// The overlay label a diff entry's header line carries.
pub open spec fn entry_label_name(e: DiffEntry) -> Seq<char> {
    match e.copy {
        Some(CopyKind::Copy) => "created"@,
        Some(CopyKind::Rename) => "renamed"@,
        None => if e.before_present && e.after_present {
            "modified"@
        } else if e.after_present {
            "added"@
        } else {
            "deleted"@
        },
    }
}

/// The header line of a diff entry: status sigil, display path, line break.
pub open spec fn entry_line(e: DiffEntry) -> Seq<char> {
    let sigil = match e.copy {
        Some(CopyKind::Copy) => "C "@,
        Some(CopyKind::Rename) => "R "@,
        None => if e.before_present && e.after_present {
            "M "@
        } else if e.after_present {
            "A "@
        } else {
            "D "@
        },
    };
    sigil + e.pretty_path@ + "\n"@
}

/// Where the entry's jump target points: the file under the workspace root.
pub open spec fn entry_target(root: Seq<char>, e: DiffEntry) -> Seq<char> {
    root + "/"@ + e.path@
}

/// A diff entry is renderable: its diff fragment is balanced and at least
/// one side of the entry exists.
pub open spec fn entry_wf(e: DiffEntry) -> bool {
    &&& balanced_frags(e.diff_ops@)
    &&& (e.before_present || e.after_present)
}

pub open spec fn log_wf(l: LogEntry) -> bool {
    &&& balanced_frags(l.log_ops@)
    &&& balanced_frags(l.summary_ops@)
}

/// One diff entry rendered: a folding region around the whole entry, an
/// optional move-file action, the header line under its overlay label with a
/// jump target exactly when the file exists on the after side, and the
/// entry's diff body.
pub open spec fn render_entry_m(m: PwModel, e: DiffEntry, root: Seq<char>, with_action: bool) -> PwModel {
    let m1 = pw_push_fold(m);
    let m2 = if with_action {
        pw_push_actions(m1, seq![move_file_view(e.pretty_path@)])
    } else {
        m1
    };
    let tok = spec_token_or_default(entry_label_name(e));
    let m3 = if e.copy is Some {
        pw_labelled(m2, tok, entry_line(e))
    } else if e.after_present {
        pw_pop_goto(pw_labelled(pw_push_goto(m2, entry_target(root, e)), tok, entry_line(e)))
    } else {
        pw_labelled(m2, tok, entry_line(e))
    };
    let m4 = replay_frags(m3, e.diff_ops@);
    let m5 = pw_pop_fold(m4);
    if with_action {
        pw_pop_actions(m5)
    } else {
        m5
    }
}

/// Renders one diff entry; see [`render_entry_m`] for what it produces.
pub fn render_diff_entry(out: &mut PageWriter, e: &DiffEntry, root: &str, with_action: bool)
    requires
        old(out).wf(),
        entry_wf(*e),
    ensures
        final(out).wf(),
        pw_view(*final(out)) == render_entry_m(pw_view(*old(out)), *e, root@, with_action),
        final(out).labels.m().pending.len() == old(out).labels.m().pending.len(),
{
    let ghost m0 = pw_view(*old(out));
    out.push_fold();
    assert(pw_view(*out) == pw_push_fold(m0));
    if with_action {
        let mut acts: Vec<CodeAction> = Vec::new();
        acts.push(CodeAction::move_file_to_commit(clone_string(&e.pretty_path)));
        let ghost prev = pw_view(*out);
        let ghost cpre = out.code_actions.m();
        let ghost av = acts;
        out.push_code_actions(acts);
        proof {
            lemma_map_payload_push(cpre, prev.buf.len() as int, av, false, actions_view());
            assert(action_view(av@[0]).args =~= seq![e.pretty_path@]);
            assert(action_view(av@[0]) == move_file_view(e.pretty_path@));
            assert(av@.map_values(|a: CodeAction| action_view(a)) =~= seq![
                move_file_view(e.pretty_path@),
            ]);
            assert(pw_view(*out) == pw_push_actions(prev, seq![move_file_view(e.pretty_path@)]));
        }
    }
    let ghost m2 = pw_view(*out);
    let label_name: &str = match e.copy {
        Some(CopyKind::Copy) => "created",
        Some(CopyKind::Rename) => "renamed",
        None => {
            if e.before_present && e.after_present {
                "modified"
            } else if e.after_present {
                "added"
            } else {
                "deleted"
            }
        },
    };
    proof {
        assert(label_name@ == entry_label_name(*e));
    }
    let tok = get_or_default(label_name);
    let sigil: &str = match e.copy {
        Some(CopyKind::Copy) => "C ",
        Some(CopyKind::Rename) => "R ",
        None => {
            if e.before_present && e.after_present {
                "M "
            } else if e.after_present {
                "A "
            } else {
                "D "
            }
        },
    };
    let mut line = String::from_str(sigil);
    append_str(&mut line, e.pretty_path.as_str());
    append_str(&mut line, "\n");
    proof {
        assert(line@ == entry_line(*e));
    }
    let is_copy = match e.copy {
        Some(_) => true,
        None => false,
    };
    if !is_copy && e.after_present {
        let mut t = String::new();
        append_str(&mut t, root);
        append_str(&mut t, "/");
        append_str(&mut t, e.path.as_str());
        let target = GotoDefinitionTarget { target: t };
        let ghost tv = target;
        let ghost gpre = out.goto_def.m();
        out.push_goto(target);
        proof {
            lemma_map_payload_push(gpre, m2.buf.len() as int, tv, false, goto_view());
            assert(pw_view(*out) == pw_push_goto(m2, entry_target(root@, *e)));
        }
        let ghost m2g = pw_view(*out);
        let w = out.labelled(tok);
        w.write_fmt(out, line.as_str());
        assert(pw_view(*out) == pw_labelled(m2g, tok, entry_line(*e)));
        let ghost before_pop = *out;
        out.pop_goto();
        proof {
            lemma_map_payload_pop(
                before_pop.goto_def.m(),
                trimmed_len(before_pop.buf@) as int,
                false,
                goto_view(),
            );
            assert(pw_view(*out) == pw_pop_goto(pw_labelled(m2g, tok, entry_line(*e))));
        }
    } else {
        let w = out.labelled(tok);
        w.write_fmt(out, line.as_str());
        assert(pw_view(*out) == pw_labelled(m2, tok, entry_line(*e)));
    }
    let ghost m3 = pw_view(*out);
    proof {
        lemma_balanced_pops(e.diff_ops@);
    }
    write_fragment(out, &e.diff_ops);
    assert(pw_view(*out) == replay_frags(m3, e.diff_ops@));
    let ghost before_fold_pop = *out;
    out.pop_fold();
    proof {
        assert(pw_view(*out) == pw_pop_fold(replay_frags(m3, e.diff_ops@)));
    }
    if with_action {
        let ghost before_act_pop = *out;
        out.pop_code_action();
        proof {
            lemma_map_payload_pop(
                before_act_pop.code_actions.m(),
                trimmed_len(before_act_pop.buf@) as int,
                false,
                actions_view(),
            );
        }
    }
}

/// One recent-commit entry on the status page: a folding region holding the
/// commit's template line — with create-new and abandon actions attached —
/// and its diff summary.
pub open spec fn render_log_status_m(m: PwModel, l: LogEntry) -> PwModel {
    let m1 = pw_push_fold(m);
    let m2 = pw_push_actions(
        m1,
        seq![new_commit_view(l.change_id@), abandon_view(l.change_id@)],
    );
    let m3 = replay_frags(m2, l.log_ops@);
    let m4 = pw_pop_actions(m3);
    let m5 = replay_frags(m4, l.summary_ops@);
    pw_pop_fold(m5)
}

/// One recent-commit entry on the split page: the template line, a line
/// break, and the diff summary inside a folding region.
pub open spec fn render_log_split_m(m: PwModel, l: LogEntry) -> PwModel {
    let m1 = pw_push_fold(m);
    let m2 = replay_frags(m1, l.log_ops@);
    let m3 = pw_write(m2, "\n"@);
    let m4 = replay_frags(m3, l.summary_ops@);
    pw_pop_fold(m4)
}

pub fn render_log_status(out: &mut PageWriter, l: &LogEntry)
    requires
        old(out).wf(),
        log_wf(*l),
    ensures
        final(out).wf(),
        pw_view(*final(out)) == render_log_status_m(pw_view(*old(out)), *l),
        final(out).labels.m().pending.len() == old(out).labels.m().pending.len(),
{
    let ghost m0 = pw_view(*old(out));
    out.push_fold();
    assert(pw_view(*out) == pw_push_fold(m0));
    let mut acts: Vec<CodeAction> = Vec::new();
    acts.push(CodeAction::new(clone_string(&l.change_id)));
    acts.push(CodeAction::abandon(clone_string(&l.change_id)));
    let ghost prev = pw_view(*out);
    let ghost cpre = out.code_actions.m();
    let ghost av = acts;
    out.push_code_actions(acts);
    proof {
        lemma_map_payload_push(cpre, prev.buf.len() as int, av, false, actions_view());
        assert(action_view(av@[0]).args =~= seq![l.change_id@]);
        assert(action_view(av@[0]) == new_commit_view(l.change_id@));
        assert(action_view(av@[1]).args =~= seq![l.change_id@]);
        assert(action_view(av@[1]) == abandon_view(l.change_id@));
        assert(av@.map_values(|a: CodeAction| action_view(a)) =~= seq![
            new_commit_view(l.change_id@),
            abandon_view(l.change_id@),
        ]);
        assert(pw_view(*out) == pw_push_actions(
            prev,
            seq![new_commit_view(l.change_id@), abandon_view(l.change_id@)],
        ));
    }
    proof {
        lemma_balanced_pops(l.log_ops@);
    }
    write_fragment(out, &l.log_ops);
    let ghost before_pop = *out;
    out.pop_code_action();
    proof {
        lemma_map_payload_pop(
            before_pop.code_actions.m(),
            trimmed_len(before_pop.buf@) as int,
            false,
            actions_view(),
        );
    }
    proof {
        lemma_balanced_pops(l.summary_ops@);
    }
    write_fragment(out, &l.summary_ops);
    out.pop_fold();
}

pub fn render_log_split(out: &mut PageWriter, l: &LogEntry)
    requires
        old(out).wf(),
        log_wf(*l),
    ensures
        final(out).wf(),
        pw_view(*final(out)) == render_log_split_m(pw_view(*old(out)), *l),
        final(out).labels.m().pending.len() == old(out).labels.m().pending.len(),
{
    let ghost m0 = pw_view(*old(out));
    out.push_fold();
    assert(pw_view(*out) == pw_push_fold(m0));
    proof {
        lemma_balanced_pops(l.log_ops@);
    }
    write_fragment(out, &l.log_ops);
    out.write("\n");
    proof {
        lemma_balanced_pops(l.summary_ops@);
    }
    write_fragment(out, &l.summary_ops);
    out.pop_fold();
}

/// All diff entries rendered in order.
pub open spec fn render_entries_m(
    m: PwModel,
    entries: Seq<DiffEntry>,
    root: Seq<char>,
    with_action: bool,
) -> PwModel
    decreases entries.len(),
{
    if entries.len() == 0 {
        m
    } else {
        render_entry_m(
            render_entries_m(m, entries.drop_last(), root, with_action),
            entries.last(),
            root,
            with_action,
        )
    }
}

/// All status-page log entries rendered in order.
pub open spec fn render_logs_status_m(m: PwModel, log: Seq<LogEntry>) -> PwModel
    decreases log.len(),
{
    if log.len() == 0 {
        m
    } else {
        render_log_status_m(render_logs_status_m(m, log.drop_last()), log.last())
    }
}

/// All split-page log entries rendered in order.
pub open spec fn render_logs_split_m(m: PwModel, log: Seq<LogEntry>) -> PwModel
    decreases log.len(),
{
    if log.len() == 0 {
        m
    } else {
        render_log_split_m(render_logs_split_m(m, log.drop_last()), log.last())
    }
}

impl StatusData {
    pub open spec fn wf(self) -> bool {
        &&& balanced_frags(self.head_ops@)
        &&& (forall|i: int|
            0 <= i < self.entries@.len() ==> entry_wf(#[trigger] self.entries@[i]))
        &&& (forall|i: int| 0 <= i < self.log@.len() ==> log_wf(#[trigger] self.log@[i]))
    }
}

impl SplitData {
    pub open spec fn wf(self) -> bool {
        &&& (forall|i: int|
            0 <= i < self.entries@.len() ==> entry_wf(#[trigger] self.entries@[i]))
        &&& (forall|i: int| 0 <= i < self.log@.len() ==> log_wf(#[trigger] self.log@[i]))
    }
}

impl AnnotateData {
    pub open spec fn wf(self) -> bool {
        forall|i: int|
            0 <= i < self.lines@.len() ==> balanced_frags((#[trigger] self.lines@[i]).commit_ops@)
    }
}

/// The text `" (<n>)\n"` that follows a section heading's change count.
fn count_text(n: usize) -> (r: String)
    ensures
        r@ == " ("@ + dec_rep(n as nat) + ")\n"@,
{
    let mut s = String::from_str(" (");
    let ds = dec_string(n as u64);
    append_str(&mut s, ds.as_str());
    append_str(&mut s, ")\n");
    proof {
        assert(n as u64 as nat == n as nat);
    }
    s
}

/// The whole status page: the head commit under its heading, the change
/// list with per-file entries, and the recent-commit log.
pub open spec fn render_status_m(m: PwModel, d: StatusData) -> PwModel {
    let m1 = pw_labelled(m, 0, "Head: "@);
    let m2 = replay_frags(m1, d.head_ops@);
    let m3 = pw_write(m2, "\n"@);
    let m4 = pw_push_actions(m3, seq![move_to_commit_view()]);
    let m5 = pw_labelled(m4, 0, "Changes"@);
    let m6 = pw_pop_actions(m5);
    let m7 = pw_write(m6, " ("@ + dec_rep(d.entries@.len()) + ")\n"@);
    let m8 = render_entries_m(m7, d.entries@, d.workspace_root@, true);
    let m9 = pw_write(m8, "\n"@);
    let m10 = pw_labelled(m9, 0, "Recent commits\n"@);
    render_logs_status_m(m10, d.log@)
}

/// Renders the repository-status page from a backend snapshot.
pub fn render_status(out: &mut PageWriter, d: &StatusData)
    requires
        old(out).wf(),
        d.wf(),
    ensures
        final(out).wf(),
        pw_view(*final(out)) == render_status_m(pw_view(*old(out)), *d),
{
    let ghost m0 = pw_view(*old(out));
    let w = out.labelled(0);
    w.write_fmt(out, "Head: ");
    assert(pw_view(*out) == pw_labelled(m0, 0, "Head: "@));
    proof {
        lemma_balanced_pops(d.head_ops@);
    }
    write_fragment(out, &d.head_ops);
    out.write("\n");
    let mut acts: Vec<CodeAction> = Vec::new();
    acts.push(CodeAction::move_to_commit());
    let ghost prev = pw_view(*out);
    let ghost cpre = out.code_actions.m();
    let ghost av = acts;
    out.push_code_actions(acts);
    proof {
        lemma_map_payload_push(cpre, prev.buf.len() as int, av, false, actions_view());
        assert(action_view(av@[0]).args =~= Seq::<Seq<char>>::empty());
        assert(action_view(av@[0]) == move_to_commit_view());
        assert(av@.map_values(|a: CodeAction| action_view(a)) =~= seq![move_to_commit_view()]);
        assert(pw_view(*out) == pw_push_actions(prev, seq![move_to_commit_view()]));
    }
    let w = out.labelled(0);
    w.write_fmt(out, "Changes");
    let ghost before_pop = *out;
    out.pop_code_action();
    proof {
        lemma_map_payload_pop(
            before_pop.code_actions.m(),
            trimmed_len(before_pop.buf@) as int,
            false,
            actions_view(),
        );
    }
    let c = count_text(d.entries.len());
    out.write(c.as_str());
    let ghost m7 = pw_view(*out);
    proof {
        assert(d.entries@.subrange(0, 0) =~= Seq::<DiffEntry>::empty());
    }
    let mut i: usize = 0;
    while i < d.entries.len()
        invariant
            i <= d.entries@.len(),
            out.wf(),
            d.wf(),
            pw_view(*out) == render_entries_m(
                m7,
                d.entries@.subrange(0, i as int),
                d.workspace_root@,
                true,
            ),
        decreases d.entries@.len() - i,
    {
        let ghost pre = d.entries@.subrange(0, i as int);
        render_diff_entry(out, &d.entries[i], d.workspace_root.as_str(), true);
        proof {
            let cur = d.entries@.subrange(0, i as int + 1);
            assert(cur.drop_last() =~= pre);
            assert(cur.last() == d.entries@[i as int]);
        }
        i = i + 1;
    }
    proof {
        assert(d.entries@.subrange(0, d.entries@.len() as int) =~= d.entries@);
    }
    out.write("\n");
    let ghost m9 = pw_view(*out);
    let w = out.labelled(0);
    w.write_fmt(out, "Recent commits\n");
    let ghost m10 = pw_view(*out);
    assert(m10 == pw_labelled(m9, 0, "Recent commits\n"@));
    proof {
        assert(d.log@.subrange(0, 0) =~= Seq::<LogEntry>::empty());
    }
    let mut i: usize = 0;
    while i < d.log.len()
        invariant
            i <= d.log@.len(),
            out.wf(),
            d.wf(),
            pw_view(*out) == render_logs_status_m(m10, d.log@.subrange(0, i as int)),
        decreases d.log@.len() - i,
    {
        let ghost pre = d.log@.subrange(0, i as int);
        render_log_status(out, &d.log[i]);
        proof {
            let cur = d.log@.subrange(0, i as int + 1);
            assert(cur.drop_last() =~= pre);
            assert(cur.last() == d.log@[i as int]);
        }
        i = i + 1;
    }
    proof {
        assert(d.log@.subrange(0, d.log@.len() as int) =~= d.log@);
    }
}

/// The whole split page: the unselected and selected sections with the
/// selected entries, and the recent-commit log.
pub open spec fn render_split_m(m: PwModel, d: SplitData) -> PwModel {
    let m1 = pw_labelled(m, 0, "Unselected changes"@);
    let m2 = pw_write(m1, " (0)\n"@);
    let m3 = pw_write(m2, "\n"@);
    let m4 = pw_labelled(m3, 0, "Selected changes"@);
    let m5 = pw_write(m4, " ("@ + dec_rep(d.entries@.len()) + ")\n"@);
    let m6 = render_entries_m(m5, d.entries@, d.workspace_root@, false);
    let m7 = pw_write(m6, "\n"@);
    let m8 = pw_labelled(m7, 0, "Recent commits\n"@);
    render_logs_split_m(m8, d.log@)
}

/// Renders the pending-split page from a backend snapshot.
pub fn render_split(out: &mut PageWriter, d: &SplitData)
    requires
        old(out).wf(),
        d.wf(),
    ensures
        final(out).wf(),
        pw_view(*final(out)) == render_split_m(pw_view(*old(out)), *d),
{
    let ghost m0 = pw_view(*old(out));
    let w = out.labelled(0);
    w.write_fmt(out, "Unselected changes");
    out.write(" (0)\n");
    out.write("\n");
    let w = out.labelled(0);
    w.write_fmt(out, "Selected changes");
    let c = count_text(d.entries.len());
    out.write(c.as_str());
    let ghost m5 = pw_view(*out);
    proof {
        assert(d.entries@.subrange(0, 0) =~= Seq::<DiffEntry>::empty());
    }
    let mut i: usize = 0;
    while i < d.entries.len()
        invariant
            i <= d.entries@.len(),
            out.wf(),
            d.wf(),
            pw_view(*out) == render_entries_m(
                m5,
                d.entries@.subrange(0, i as int),
                d.workspace_root@,
                false,
            ),
        decreases d.entries@.len() - i,
    {
        let ghost pre = d.entries@.subrange(0, i as int);
        render_diff_entry(out, &d.entries[i], d.workspace_root.as_str(), false);
        proof {
            let cur = d.entries@.subrange(0, i as int + 1);
            assert(cur.drop_last() =~= pre);
            assert(cur.last() == d.entries@[i as int]);
        }
        i = i + 1;
    }
    proof {
        assert(d.entries@.subrange(0, d.entries@.len() as int) =~= d.entries@);
    }
    out.write("\n");
    let ghost m7 = pw_view(*out);
    let w = out.labelled(0);
    w.write_fmt(out, "Recent commits\n");
    let ghost m8 = pw_view(*out);
    assert(m8 == pw_labelled(m7, 0, "Recent commits\n"@));
    proof {
        assert(d.log@.subrange(0, 0) =~= Seq::<LogEntry>::empty());
    }
    let mut i: usize = 0;
    while i < d.log.len()
        invariant
            i <= d.log@.len(),
            out.wf(),
            d.wf(),
            pw_view(*out) == render_logs_split_m(m8, d.log@.subrange(0, i as int)),
        decreases d.log@.len() - i,
    {
        let ghost pre = d.log@.subrange(0, i as int);
        render_log_split(out, &d.log[i]);
        proof {
            let cur = d.log@.subrange(0, i as int + 1);
            assert(cur.drop_last() =~= pre);
            assert(cur.last() == d.log@[i as int]);
        }
        i = i + 1;
    }
    proof {
        assert(d.log@.subrange(0, d.log@.len() as int) =~= d.log@);
    }
}

/// Why a renderer refused its arguments.
#[derive(Clone, Copy, Debug, PartialEq, Eq, Structural)]
pub enum RenderError {
    /// The page kind takes exactly one argument and got another count.
    WrongArgumentCount,
}

/// Right-aligns a counter to a width of four with leading spaces.
pub open spec fn pad4(s: Seq<char>) -> Seq<char> {
    if s.len() >= 4 {
        s
    } else {
        Seq::new((4 - s.len()) as nat, |i: int| ' ') + s
    }
}

fn pad4_chars(v: Vec<char>) -> (r: Vec<char>)
    ensures
        r@ == pad4(v@),
{
    if v.len() >= 4 {
        v
    } else {
        let k = 4 - v.len();
        let mut r: Vec<char> = Vec::new();
        let mut i: usize = 0;
        while i < k
            invariant
                i <= k,
                r@ =~= Seq::new(i as nat, |j: int| ' '),
            decreases k - i,
        {
            r.push(' ');
            proof {
                assert(r@ =~= Seq::new((i + 1) as nat, |j: int| ' '));
            }
            i = i + 1;
        }
        let mut i: usize = 0;
        while i < v.len()
            invariant
                i <= v@.len(),
                k == 4 - v@.len(),
                v@.len() < 4,
                r@ =~= Seq::new(k as nat, |j: int| ' ') + v@.subrange(0, i as int),
            decreases v@.len() - i,
        {
            r.push(v[i]);
            i = i + 1;
        }
        proof {
            assert(v@.subrange(0, v@.len() as int) =~= v@);
        }
        r
    }
}

/// The `" <n>: "` gutter that precedes each annotated line, the line number
/// right-aligned to width four.
pub open spec fn line_no_text(n: nat) -> Seq<char> {
    " "@ + pad4(dec_rep(n)) + ": "@
}

fn line_no_string(n: u64) -> (r: String)
    ensures
        r@ == line_no_text(n as nat),
{
    let d = crate::text::dec_u64(n);
    let p = pad4_chars(d);
    let ps = crate::text::string_of(&p);
    let mut s = String::from_str(" ");
    append_str(&mut s, ps.as_str());
    append_str(&mut s, ": ");
    s
}

/// One annotated line: the origin-commit fragment, the numbered gutter, and
/// the line's text, all under the annotate-before-this-commit action.
pub open spec fn render_annotate_line_m(m: PwModel, line: AnnotateLine, n: nat) -> PwModel {
    let m1 = pw_push_actions(m, seq![annotate_before_view()]);
    let m2 = replay_frags(m1, line.commit_ops@);
    let m3 = pw_write(m2, line_no_text(n));
    let m4 = pw_write(m3, line.text@);
    pw_pop_actions(m4)
}

/// All annotated lines in order, numbered from one.
pub open spec fn render_annotate_lines_m(m: PwModel, lines: Seq<AnnotateLine>) -> PwModel
    decreases lines.len(),
{
    if lines.len() == 0 {
        m
    } else {
        render_annotate_line_m(
            render_annotate_lines_m(m, lines.drop_last()),
            lines.last(),
            lines.len(),
        )
    }
}

pub open spec fn render_annotate_m(m: PwModel, d: AnnotateData) -> PwModel {
    render_annotate_lines_m(m, d.lines@)
}

/// Renders the line-by-line annotation page. Takes exactly one argument,
/// the file path the annotation was computed for; any other argument count
/// is refused and leaves the writer untouched.
pub fn render_annotate(out: &mut PageWriter, d: &AnnotateData, args: &Vec<String>) -> (r: Result<
    (),
    RenderError,
>)
    requires
        old(out).wf(),
        d.wf(),
    ensures
        final(out).wf(),
        args@.len() != 1 ==> r == Err::<(), RenderError>(RenderError::WrongArgumentCount)
            && *final(out) == *old(out),
        args@.len() == 1 ==> r == Ok::<(), RenderError>(()) && pw_view(*final(out))
            == render_annotate_m(pw_view(*old(out)), *d),
{
    if args.len() != 1 {
        return Err(RenderError::WrongArgumentCount);
    }
    let ghost m0 = pw_view(*old(out));
    proof {
        assert(d.lines@.subrange(0, 0) =~= Seq::<AnnotateLine>::empty());
    }
    let mut i: usize = 0;
    while i < d.lines.len()
        invariant
            i <= d.lines@.len(),
            out.wf(),
            d.wf(),
            pw_view(*out) == render_annotate_lines_m(m0, d.lines@.subrange(0, i as int)),
        decreases d.lines@.len() - i,
    {
        let ghost pre = d.lines@.subrange(0, i as int);
        let line = &d.lines[i];
        let mut acts: Vec<CodeAction> = Vec::new();
        acts.push(CodeAction::annotate_before());
        let ghost prev = pw_view(*out);
        let ghost cpre = out.code_actions.m();
        let ghost av = acts;
        out.push_code_actions(acts);
        proof {
            lemma_map_payload_push(cpre, prev.buf.len() as int, av, false, actions_view());
            assert(action_view(av@[0]).args =~= Seq::<Seq<char>>::empty());
            assert(action_view(av@[0]) == annotate_before_view());
            assert(av@.map_values(|a: CodeAction| action_view(a)) =~= seq![
                annotate_before_view(),
            ]);
            assert(pw_view(*out) == pw_push_actions(prev, seq![annotate_before_view()]));
        }
        proof {
            lemma_balanced_pops(line.commit_ops@);
        }
        write_fragment(out, &line.commit_ops);
        let gutter = line_no_string((i + 1) as u64);
        out.write(gutter.as_str());
        proof {
            assert((i + 1) as u64 as nat == i as nat + 1);
        }
        out.write(line.text.as_str());
        let ghost before_pop = *out;
        out.pop_code_action();
        proof {
            lemma_map_payload_pop(
                before_pop.code_actions.m(),
                trimmed_len(before_pop.buf@) as int,
                false,
                actions_view(),
            );
            let cur = d.lines@.subrange(0, i as int + 1);
            assert(cur.drop_last() =~= pre);
            assert(cur.last() == d.lines@[i as int]);
            assert(cur.len() == i + 1);
        }
        i = i + 1;
    }
    proof {
        assert(d.lines@.subrange(0, d.lines@.len() as int) =~= d.lines@);
    }
    Ok(())
}

/// The commit page, still a stub in this design: the commit's change id
/// under a heading, then the stub body line.
pub open spec fn render_commit_m(m: PwModel, cid: Seq<char>) -> PwModel {
    pw_write(pw_write(m, "Commit: "@ + cid + "\n"@), "todo\n"@)
}

/// Renders the single-commit page. Takes exactly one argument, the change
/// id; any other argument count is refused and leaves the writer untouched.
pub fn render_commit(out: &mut PageWriter, args: &Vec<String>) -> (r: Result<(), RenderError>)
    requires
        old(out).wf(),
    ensures
        final(out).wf(),
        args@.len() != 1 ==> r == Err::<(), RenderError>(RenderError::WrongArgumentCount)
            && *final(out) == *old(out),
        args@.len() == 1 ==> r == Ok::<(), RenderError>(()) && pw_view(*final(out))
            == render_commit_m(pw_view(*old(out)), args@[0]@),
{
    if args.len() != 1 {
        return Err(RenderError::WrongArgumentCount);
    }
    let mut line = String::from_str("Commit: ");
    append_str(&mut line, args[0].as_str());
    append_str(&mut line, "\n");
    out.write(line.as_str());
    out.write("todo\n");
    Ok(())
}

/// The backend data one render consumes, one variant per page kind.
#[derive(Debug)]
pub enum PageData {
    Status(StatusData),
    Split(SplitData),
    Annotate(AnnotateData),
    Commit,
}

/// The data variant fits the page kind.
pub open spec fn data_matches(kind: PageKind, data: PageData) -> bool {
    match (kind, data) {
        (PageKind::Status, PageData::Status(_)) => true,
        (PageKind::Split, PageData::Split(_)) => true,
        (PageKind::Annotate, PageData::Annotate(_)) => true,
        (PageKind::Commit, PageData::Commit) => true,
        _ => false,
    }
}

pub open spec fn page_data_wf(data: PageData) -> bool {
    match data {
        PageData::Status(d) => d.wf(),
        PageData::Split(d) => d.wf(),
        PageData::Annotate(d) => d.wf(),
        PageData::Commit => true,
    }
}

/// What any renderer leaves in the writer: the registry's one dispatch.
pub open spec fn rendered_model(m: PwModel, data: PageData, args: Seq<String>) -> PwModel {
    match data {
        PageData::Status(d) => render_status_m(m, d),
        PageData::Split(d) => render_split_m(m, d),
        PageData::Annotate(d) => render_annotate_m(m, d),
        PageData::Commit => render_commit_m(m, args[0]@),
    }
}

/// Whether the argument list fits the kind: status and split ignore their
/// arguments, annotate and commit take exactly one.
pub open spec fn args_fit(data: PageData, args: Seq<String>) -> bool {
    match data {
        PageData::Status(_) => true,
        PageData::Split(_) => true,
        PageData::Annotate(_) => args.len() == 1,
        PageData::Commit => args.len() == 1,
    }
}

/// Dispatches to the renderer registered for `kind`: succeeds exactly when
/// the argument list fits the kind, and then leaves [`rendered_model`]'s
/// state in the writer; a refused argument list leaves the writer untouched.
pub fn render_page(
    out: &mut PageWriter,
    kind: PageKind,
    data: &PageData,
    args: &Vec<String>,
) -> (r: Result<(), RenderError>)
    requires
        old(out).wf(),
        data_matches(kind, *data),
        page_data_wf(*data),
    ensures
        final(out).wf(),
        args_fit(*data, args@) ==> r == Ok::<(), RenderError>(()) && pw_view(*final(out))
            == rendered_model(pw_view(*old(out)), *data, args@),
        !args_fit(*data, args@) ==> r == Err::<(), RenderError>(RenderError::WrongArgumentCount)
            && *final(out) == *old(out),
{
    match data {
        PageData::Status(d) => {
            render_status(out, d);
            Ok(())
        },
        PageData::Split(d) => {
            render_split(out, d);
            Ok(())
        },
        PageData::Annotate(d) => render_annotate(out, d, args),
        PageData::Commit => render_commit(out, args),
    }
}

/// Law: rendering is deterministic. The writer state a renderer produces is
/// a function of the starting state, the backend snapshot and the arguments
/// alone, so rendering the same page identity twice against an unchanged
/// snapshot produces byte-identical text and identical overlay models.
pub proof fn lemma_render_deterministic(
    m1: PwModel,
    m2: PwModel,
    data1: PageData,
    data2: PageData,
    args1: Seq<String>,
    args2: Seq<String>,
)
    requires
        m1 == m2,
        data1 == data2,
        args1 == args2,
    ensures
        rendered_model(m1, data1, args1) == rendered_model(m2, data2, args2),
        rendered_model(m1, data1, args1).buf == rendered_model(m2, data2, args2).buf,
{
}

/// What one diff-summary line denotes: its status sigil and the path after
/// the separating space.
pub open spec fn spec_parse_summary(line: Seq<char>) -> Option<(char, Seq<char>)> {
    if line.len() >= 2 && line[1] == ' ' {
        Some((line[0], line.subrange(2, line.len() as int)))
    } else {
        None
    }
}

/// Splits one diff-summary line of the form `<sigil> <path>` into its parts.
pub fn parse_summary_line(line: &str) -> (r: Option<(char, String)>)
    ensures
        match r {
            Some(p) => spec_parse_summary(line@) matches Some(q) && p.0 == q.0 && p.1@ == q.1,
            None => spec_parse_summary(line@) is None,
        },
{
    let len = line.unicode_len();
    if len < 2 {
        return None;
    }
    if line.get_char(1) != ' ' {
        return None;
    }
    let sigil = line.get_char(0);
    let rest = line.substring_char(2, len);
    Some((sigil, rest.to_owned()))
}

/// The diff entry one summary line describes, the diff body attached: `M`
/// is a change on both sides, `A` exists only after, `D` only before, `C`
/// and `R` are copies and renames; any other sigil describes no entry.
pub fn summary_entry(sigil: char, path: String, diff_ops: Vec<FragmentOp>) -> (r: Option<
    DiffEntry,
>)
    ensures
        match r {
            Some(e) => {
                &&& (sigil == 'M' || sigil == 'A' || sigil == 'D' || sigil == 'C' || sigil == 'R')
                &&& e.path == path
                &&& e.pretty_path@ == path@
                &&& e.diff_ops == diff_ops
                &&& e.before_present == (sigil == 'M' || sigil == 'D' || sigil == 'C' || sigil
                    == 'R')
                &&& e.after_present == (sigil != 'D')
                &&& e.copy == (if sigil == 'C' {
                    Some(CopyKind::Copy)
                } else if sigil == 'R' {
                    Some(CopyKind::Rename)
                } else {
                    None::<CopyKind>
                })
            },
            None => !(sigil == 'M' || sigil == 'A' || sigil == 'D' || sigil == 'C' || sigil
                == 'R'),
        },
{
    if sigil != 'M' && sigil != 'A' && sigil != 'D' && sigil != 'C' && sigil != 'R' {
        return None;
    }
    let before_present = sigil == 'M' || sigil == 'D' || sigil == 'C' || sigil == 'R';
    let after_present = sigil != 'D';
    let copy = if sigil == 'C' {
        Some(CopyKind::Copy)
    } else if sigil == 'R' {
        Some(CopyKind::Rename)
    } else {
        None
    };
    let pretty_path = clone_string(&path);
    Some(
        DiffEntry { before_present, after_present, copy, path, pretty_path, diff_ops },
    )
}

} // verus!
