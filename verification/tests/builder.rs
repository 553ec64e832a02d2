use jjmagit_language_server::page_writer::CodeAction;
use jjmagit_language_server::page_writer::GotoDefinitionTarget;
use jjmagit_language_server::page_writer::PageWriter;
use jjmagit_language_server::span::Span;
use jjmagit_language_server::stack::WriterStack;

#[test]
fn nested_stack_nests_spans() {
    let mut buf = String::new();
    let mut stack: WriterStack<u32, false> = WriterStack::new();
    stack.push(&buf, 1);
    buf.push_str("aaa");
    stack.push(&buf, 2);
    buf.push_str("bbb");
    stack.pop(&buf);
    buf.push_str("ccc");
    stack.pop(&buf);
    assert_eq!(stack.done, vec![
        (Span { start: 3, end: 6 }, 2),
        (Span { start: 0, end: 9 }, 1),
    ]);
}

#[test]
fn pop_excludes_trailing_whitespace() {
    let mut buf = String::new();
    let mut stack: WriterStack<u32, false> = WriterStack::new();
    stack.push(&buf, 7);
    buf.push_str("line\n");
    stack.pop(&buf);
    assert_eq!(stack.done, vec![(Span { start: 0, end: 4 }, 7)]);
}

#[test]
fn pop_never_reverses_a_span() {
    // An annotation that only ever saw whitespace closes where it opened.
    let mut buf = String::from("a\n");
    let mut stack: WriterStack<u32, false> = WriterStack::new();
    stack.push(&buf, 9);
    stack.pop(&buf);
    assert_eq!(stack.done, vec![(Span { start: 2, end: 2 }, 9)]);
}

#[test]
fn disjoint_stack_replaces_instead_of_nesting() {
    // The example from the annotated-writer design: aaa bbb aaa with a
    // nested label produces three non-overlapping spans covering the text.
    let mut buf = String::new();
    let mut stack: WriterStack<u32, true> = WriterStack::new();
    stack.push(&buf, 0);
    buf.push_str("aaa");
    stack.push(&buf, 1);
    buf.push_str("bbb");
    stack.pop(&buf);
    buf.push_str("aaa");
    stack.pop(&buf);
    assert_eq!(stack.done, vec![
        (Span { start: 0, end: 3 }, 0),
        (Span { start: 3, end: 6 }, 1),
        (Span { start: 6, end: 9 }, 0),
    ]);
}

#[test]
fn disjoint_push_only_covers_without_gaps() {
    let mut buf = String::new();
    let mut stack: WriterStack<u32, true> = WriterStack::new();
    stack.push(&buf, 0);
    buf.push_str("one");
    stack.push(&buf, 1);
    buf.push_str("two");
    stack.push(&buf, 2);
    buf.push_str("three");
    assert_eq!(stack.done, vec![
        (Span { start: 0, end: 3 }, 0),
        (Span { start: 3, end: 6 }, 1),
    ]);
    assert_eq!(stack.in_progress.last().unwrap().0, 6);
}

#[test]
fn disjoint_pop_reopens_parent_at_close_offset() {
    let mut buf = String::new();
    let mut stack: WriterStack<u32, true> = WriterStack::new();
    stack.push(&buf, 0);
    buf.push_str("aaa");
    stack.push(&buf, 1);
    buf.push_str("bb\n");
    stack.pop(&buf);
    buf.push_str("cc");
    stack.pop(&buf);
    // The inner span stops before its line break; the reopened parent takes
    // over from the close offset, so the region stays covered.
    assert_eq!(stack.done, vec![
        (Span { start: 0, end: 3 }, 0),
        (Span { start: 3, end: 5 }, 1),
        (Span { start: 5, end: 8 }, 0),
    ]);
}

#[test]
fn scoped_writer_writes_once_and_closes() {
    let mut out = PageWriter::new();
    let w = out.labelled(5);
    w.write_fmt(&mut out, "hello ");
    out.write("rest\n");
    let page = out.finish();
    assert_eq!(page.text, "hello rest\n");
    assert_eq!(page.labels, vec![(Span { start: 0, end: 5 }, 5)]);
}

#[test]
fn finish_sorts_labels_by_start() {
    let mut out = PageWriter::new();
    // A disjoint inner label closes its parent early, so completion order
    // differs from start order.
    out.push_label("author");
    out.write("abc");
    out.push_label("added");
    out.write("def");
    out.pop_label();
    out.write("ghi");
    out.pop_label();
    let page = out.finish();
    let starts: Vec<usize> = page.labels.iter().map(|p| p.0.start).collect();
    let mut sorted = starts.clone();
    sorted.sort();
    assert_eq!(starts, sorted);
    assert_eq!(page.labels.len(), 3);
}

#[test]
fn folding_and_goto_overlays() {
    let mut out = PageWriter::new();
    out.push_fold();
    out.push_goto(GotoDefinitionTarget { target: String::from("/r/a.txt") });
    out.write("A a.txt\n");
    out.pop_goto();
    out.write("+new line\n");
    out.pop_fold();
    let page = out.finish();
    assert_eq!(page.goto_def.len(), 1);
    assert_eq!(page.goto_def[0].0, Span { start: 0, end: 7 });
    assert_eq!(page.goto_def[0].1.target, "/r/a.txt");
    assert_eq!(page.folding_ranges.len(), 1);
    assert_eq!(page.folding_ranges[0].0, Span { start: 0, end: 17 });
}

#[test]
fn code_actions_expand_per_action() {
    let mut out = PageWriter::new();
    let mut acts = Vec::new();
    acts.push(CodeAction::new(String::from("abc")));
    acts.push(CodeAction::abandon(String::from("abc")));
    out.push_code_actions(acts);
    out.write("entry\n");
    out.pop_code_action();
    let page = out.finish();
    assert_eq!(page.code_actions.len(), 2);
    assert_eq!(page.code_actions[0].0, Span { start: 0, end: 5 });
    assert_eq!(page.code_actions[0].1.title, "Create new commit at abc");
    assert_eq!(page.code_actions[1].0, Span { start: 0, end: 5 });
    assert_eq!(page.code_actions[1].1.title, "Abandon commit abc");
    assert_eq!(page.code_actions[1].1.args, vec![String::from("abc")]);
}

#[test]
fn empty_writer_finishes_empty_page() {
    let p = PageWriter::new().finish();
    assert_eq!(p.text, "");
    assert!(p.labels.is_empty());
    assert!(p.folding_ranges.is_empty());
    assert!(p.goto_def.is_empty());
    assert!(p.code_actions.is_empty());
}

#[test]
fn code_action_titles() {
    assert_eq!(CodeAction::move_to_commit().title, "Move to first commit");
    assert_eq!(
        CodeAction::move_file_to_commit(String::from("a.txt")).title,
        "Move a.txt to first commit"
    );
    assert_eq!(CodeAction::annotate_before().title, "Annotate before this commit");
    let a = CodeAction::move_file_to_commit(String::from("x"));
    assert_eq!(a.args, vec![String::from("x")]);
    // Every action still carries the stub command the editor side has yet
    // to wire up.
    assert_eq!(a.command, "todo");
    assert_eq!(CodeAction::abandon(String::from("x")).command, "todo");
}
