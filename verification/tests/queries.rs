use jjmagit_language_server::line_index::code_actions_in_range;
use jjmagit_language_server::line_index::folding_lines;
use jjmagit_language_server::line_index::goto_target;
use jjmagit_language_server::line_index::semantic_tokens;
use jjmagit_language_server::line_index::LineIndex;
use jjmagit_language_server::line_index::TextPosition;
use jjmagit_language_server::page_writer::CodeAction;
use jjmagit_language_server::page_writer::GotoDefinitionTarget;
use jjmagit_language_server::span::Span;

fn pos(line: usize, character: usize) -> TextPosition {
    TextPosition { line, character }
}

#[test]
fn offset_and_position_translate_both_ways() {
    let index = LineIndex::new(String::from("ab\ncd\n\nef"));
    assert_eq!(index.offset_to_position(0), pos(0, 0));
    assert_eq!(index.offset_to_position(2), pos(0, 2));
    assert_eq!(index.offset_to_position(3), pos(1, 0));
    assert_eq!(index.offset_to_position(4), pos(1, 1));
    assert_eq!(index.offset_to_position(6), pos(2, 0));
    assert_eq!(index.offset_to_position(7), pos(3, 0));
    assert_eq!(index.offset_to_position(8), pos(3, 1));

    assert_eq!(index.position_to_offset(pos(0, 0)), Some(0));
    assert_eq!(index.position_to_offset(pos(1, 1)), Some(4));
    assert_eq!(index.position_to_offset(pos(3, 2)), Some(9));
    assert_eq!(index.position_to_offset(pos(4, 0)), None);
    assert_eq!(index.position_to_offset(pos(0, 100)), None);
}

#[test]
fn semantic_token_deltas() {
    let index = LineIndex::new(String::from("one two\nthree\n"));
    let labels = vec![
        (Span { start: 0, end: 3 }, 4u32),
        (Span { start: 4, end: 7 }, 5u32),
        (Span { start: 8, end: 13 }, 6u32),
    ];
    let toks = semantic_tokens(&labels, &index);
    assert_eq!(toks.len(), 3);
    assert_eq!(
        (toks[0].delta_line, toks[0].delta_start, toks[0].length, toks[0].token_type),
        (0, 0, 3, 4)
    );
    assert_eq!(
        (toks[1].delta_line, toks[1].delta_start, toks[1].length, toks[1].token_type),
        (0, 4, 3, 5)
    );
    assert_eq!(
        (toks[2].delta_line, toks[2].delta_start, toks[2].length, toks[2].token_type),
        (1, 0, 5, 6)
    );
}

#[test]
fn folding_ranges_by_line() {
    let index = LineIndex::new(String::from("a\nb\nc\nd\n"));
    let folds = vec![(Span { start: 0, end: 5 }, ()), (Span { start: 6, end: 7 }, ())];
    let lines = folding_lines(&folds, &index);
    assert_eq!(lines, vec![(0, 2), (3, 3)]);
}

#[test]
fn goto_finds_last_covering_target() {
    let index = LineIndex::new(String::from("A a.txt\nB b.txt\n"));
    let gotos = vec![
        (Span { start: 0, end: 7 }, GotoDefinitionTarget { target: String::from("/r/a.txt") }),
        (Span { start: 0, end: 7 }, GotoDefinitionTarget { target: String::from("/r/shadow") }),
        (Span { start: 8, end: 15 }, GotoDefinitionTarget { target: String::from("/r/b.txt") }),
    ];
    let g = goto_target(&gotos, &index, pos(0, 3)).unwrap();
    assert_eq!(g.target, "/r/shadow");
    assert_eq!(g.origin_start, pos(0, 0));
    assert_eq!(g.origin_end, pos(0, 7));
    let g2 = goto_target(&gotos, &index, pos(1, 0)).unwrap();
    assert_eq!(g2.target, "/r/b.txt");
    assert!(goto_target(&gotos, &index, pos(0, 7)).is_none());
    assert!(goto_target(&gotos, &index, pos(9, 0)).is_none());
}

#[test]
fn tokens_of_a_rendered_page() {
    // A page built through the writer, indexed as its own live document,
    // delta-encodes cleanly: spans never straddle their line breaks.
    let mut out = jjmagit_language_server::page_writer::PageWriter::new();
    let w = out.labelled(4);
    w.write_fmt(&mut out, "heading\n");
    let w = out.labelled(5);
    w.write_fmt(&mut out, "body\n");
    let page = out.finish();
    let index = LineIndex::new(page.text.clone());
    let toks = semantic_tokens(&page.labels, &index);
    assert_eq!(toks.len(), 2);
    assert_eq!((toks[0].delta_line, toks[0].delta_start, toks[0].length), (0, 0, 7));
    assert_eq!((toks[1].delta_line, toks[1].delta_start, toks[1].length), (1, 0, 4));
}

#[test]
fn code_actions_touching_range() {
    let index = LineIndex::new(String::from("one\ntwo\nthree\n"));
    let actions = vec![
        (Span { start: 0, end: 3 }, CodeAction::move_to_commit()),
        (Span { start: 4, end: 7 }, CodeAction::annotate_before()),
    ];
    let hits = code_actions_in_range(&actions, &index, pos(0, 0), pos(0, 2)).unwrap();
    assert_eq!(hits.len(), 1);
    assert_eq!(hits[0].title, "Move to first commit");
    let all = code_actions_in_range(&actions, &index, pos(0, 0), pos(1, 3)).unwrap();
    assert_eq!(all.len(), 2);
    let none = code_actions_in_range(&actions, &index, pos(2, 0), pos(2, 5)).unwrap();
    assert_eq!(none.len(), 0);
    assert!(code_actions_in_range(&actions, &index, pos(9, 0), pos(9, 1)).is_none());
}
