use jjmagit_language_server::page_writer::Page;
use jjmagit_language_server::page_writer::PageWriter;
use jjmagit_language_server::pages::named;
use jjmagit_language_server::pages::render_page;
use jjmagit_language_server::pages::render_status;
use jjmagit_language_server::pages::AnnotateData;
use jjmagit_language_server::pages::AnnotateLine;
use jjmagit_language_server::pages::fragment_balanced;
use jjmagit_language_server::pages::parse_summary_line;
use jjmagit_language_server::pages::summary_entry;
use jjmagit_language_server::pages::CopyKind;
use jjmagit_language_server::pages::DiffEntry;
use jjmagit_language_server::pages::FragmentOp;
use jjmagit_language_server::pages::LogEntry;
use jjmagit_language_server::pages::PageData;
use jjmagit_language_server::pages::PageKind;
use jjmagit_language_server::pages::RenderError;
use jjmagit_language_server::pages::SplitData;
use jjmagit_language_server::pages::StatusData;
use jjmagit_language_server::semantic_token::get_or_default;
use jjmagit_language_server::semantic_token::try_get;
use jjmagit_language_server::span::Span;

fn added_entry(path: &str) -> DiffEntry {
    DiffEntry {
        before_present: false,
        after_present: true,
        copy: None,
        path: String::from(path),
        pretty_path: String::from(path),
        diff_ops: vec![FragmentOp::Text(String::from("+hello\n"))],
    }
}

fn deleted_entry(path: &str) -> DiffEntry {
    DiffEntry {
        before_present: true,
        after_present: false,
        copy: None,
        path: String::from(path),
        pretty_path: String::from(path),
        diff_ops: vec![],
    }
}

fn small_status() -> StatusData {
    StatusData {
        workspace_root: String::from("/r"),
        head_ops: vec![
            FragmentOp::PushLabel(String::from("change_id")),
            FragmentOp::Text(String::from("abc123")),
            FragmentOp::PopLabel,
        ],
        entries: vec![added_entry("a.txt")],
        log: vec![LogEntry {
            change_id: String::from("xyz"),
            log_ops: vec![FragmentOp::Text(String::from("xyz init\n"))],
            summary_ops: vec![FragmentOp::Text(String::from("A a.txt\n"))],
        }],
    }
}

fn render_status_page(d: &StatusData) -> Page {
    let mut out = PageWriter::new();
    render_status(&mut out, d);
    out.finish()
}

#[test]
fn status_page_text() {
    let page = render_status_page(&small_status());
    assert_eq!(
        page.text,
        "Head: abc123\nChanges (1)\nA a.txt\n+hello\n\nRecent commits\nxyz init\nA a.txt\n"
    );
}

#[test]
fn status_page_overlays() {
    let page = render_status_page(&small_status());
    let change_id = try_get("change_id").unwrap();
    let added = try_get("added").unwrap();
    assert_eq!(page.labels, vec![
        (Span { start: 0, end: 5 }, 0),
        (Span { start: 6, end: 12 }, change_id),
        (Span { start: 13, end: 20 }, 0),
        (Span { start: 25, end: 32 }, added),
        (Span { start: 41, end: 55 }, 0),
    ]);
    assert_eq!(page.folding_ranges.len(), 2);
    assert_eq!(page.folding_ranges[0].0, Span { start: 25, end: 39 });
    assert_eq!(page.folding_ranges[1].0, Span { start: 56, end: 72 });
    // The added file carries a jump target at its filesystem location.
    assert_eq!(page.goto_def.len(), 1);
    assert_eq!(page.goto_def[0].0, Span { start: 25, end: 32 });
    assert_eq!(page.goto_def[0].1.target, "/r/a.txt");
    let titles: Vec<&str> = page.code_actions.iter().map(|p| p.1.title.as_str()).collect();
    assert_eq!(titles, vec![
        "Move to first commit",
        "Move a.txt to first commit",
        "Create new commit at xyz",
        "Abandon commit xyz",
    ]);
}

#[test]
fn added_entry_has_jump_target_deleted_has_none() {
    let mut d = small_status();
    d.entries = vec![added_entry("a.txt"), deleted_entry("gone.txt")];
    let page = render_status_page(&d);
    // Exactly one jump target: the added file's; the deleted file's
    // after-path does not exist, so no target is written for it.
    assert_eq!(page.goto_def.len(), 1);
    assert_eq!(page.goto_def[0].1.target, "/r/a.txt");
    let added = get_or_default("added");
    let deleted = get_or_default("deleted");
    let has_added = page.labels.iter().any(|l| l.1 == added && l.0.start == 25);
    assert!(has_added);
    // The deleted entry's line is labelled under the deleted name's token.
    let deleted_line_start = page.text.find("D gone.txt").unwrap();
    let has_deleted = page
        .labels
        .iter()
        .any(|l| l.1 == deleted && l.0.start == deleted_line_start);
    assert!(has_deleted);
}

#[test]
fn copied_entry_label() {
    let mut d = small_status();
    let mut e = added_entry("b.txt");
    e.before_present = true;
    e.copy = Some(CopyKind::Rename);
    e.pretty_path = String::from("a.txt => b.txt");
    d.entries = vec![e];
    let page = render_status_page(&d);
    assert!(page.text.contains("R a.txt => b.txt\n"));
    // A copied entry resolves no single after-path, so no jump target.
    assert_eq!(page.goto_def.len(), 0);
}

#[test]
fn rendering_twice_is_byte_identical() {
    let d = small_status();
    let p1 = render_status_page(&d);
    let p2 = render_status_page(&d);
    assert_eq!(p1.text, p2.text);
    assert_eq!(p1.labels, p2.labels);
    assert_eq!(p1.folding_ranges, p2.folding_ranges);
    assert_eq!(p1.goto_def, p2.goto_def);
    assert_eq!(p1.code_actions, p2.code_actions);
}

#[test]
fn split_page_text() {
    let d = SplitData {
        workspace_root: String::from("/r"),
        entries: vec![added_entry("a.txt")],
        log: vec![],
    };
    let mut out = PageWriter::new();
    let args: Vec<String> = vec![];
    render_page(&mut out, PageKind::Split, &PageData::Split(d), &args).unwrap();
    let page = out.finish();
    assert_eq!(
        page.text,
        "Unselected changes (0)\n\nSelected changes (1)\nA a.txt\n+hello\n\nRecent commits\n"
    );
}

#[test]
fn annotate_page_text_and_arity() {
    let d = AnnotateData {
        lines: vec![
            AnnotateLine {
                commit_ops: vec![FragmentOp::Text(String::from("abc"))],
                text: String::from("first line\n"),
            },
            AnnotateLine {
                commit_ops: vec![FragmentOp::Text(String::from("abc"))],
                text: String::from("second line\n"),
            },
        ],
    };
    let mut out = PageWriter::new();
    let args = vec![String::from("src/a.js")];
    render_page(&mut out, PageKind::Annotate, &PageData::Annotate(d), &args).unwrap();
    let page = out.finish();
    assert_eq!(page.text, "abc    1: first line\nabc    2: second line\n");
    assert_eq!(page.code_actions.len(), 2);

    let mut out = PageWriter::new();
    let no_args: Vec<String> = vec![];
    let r = render_page(
        &mut out,
        PageKind::Annotate,
        &PageData::Annotate(AnnotateData { lines: vec![] }),
        &no_args,
    );
    assert_eq!(r.unwrap_err(), RenderError::WrongArgumentCount);
}

#[test]
fn commit_page_text() {
    let mut out = PageWriter::new();
    let args = vec![String::from("zzz111")];
    render_page(&mut out, PageKind::Commit, &PageData::Commit, &args).unwrap();
    let page = out.finish();
    assert_eq!(page.text, "Commit: zzz111\ntodo\n");
}

#[test]
fn summary_lines_become_entries() {
    let (sigil, path) = parse_summary_line("M src/lib.rs").unwrap();
    assert_eq!(sigil, 'M');
    assert_eq!(path, "src/lib.rs");
    assert!(parse_summary_line("M").is_none());
    assert!(parse_summary_line("").is_none());

    let e = summary_entry('A', String::from("new.txt"), vec![]).unwrap();
    assert!(!e.before_present && e.after_present && e.copy.is_none());
    let e = summary_entry('D', String::from("old.txt"), vec![]).unwrap();
    assert!(e.before_present && !e.after_present);
    let e = summary_entry('R', String::from("b.txt"), vec![]).unwrap();
    assert_eq!(e.copy, Some(CopyKind::Rename));
    assert!(summary_entry('Z', String::from("x"), vec![]).is_none());

    assert!(fragment_balanced(&vec![
        FragmentOp::PushLabel(String::from("log")),
        FragmentOp::Text(String::from("x")),
        FragmentOp::PopLabel,
    ]));
    assert!(!fragment_balanced(&vec![FragmentOp::PopLabel]));
    assert!(!fragment_balanced(&vec![FragmentOp::PushLabel(String::from("log"))]));
}

#[test]
fn registry_lookup() {
    assert_eq!(named("status"), Some(PageKind::Status));
    assert_eq!(named("split"), Some(PageKind::Split));
    assert_eq!(named("annotate"), Some(PageKind::Annotate));
    assert_eq!(named("commit"), Some(PageKind::Commit));
    assert_eq!(named("blame"), None);
    assert_eq!(named(""), None);
}
