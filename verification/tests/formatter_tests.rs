use lsp_md::document_adapter::{Position, PosRange};
use lsp_md::formatter_v2::Formatter;
use lsp_md::incremental_sync::{ChangeEvent, IncrementalSync};
use lsp_md::rope_buf::{rope_from_str, rope_to_string};
use lsp_md::util::TestDoc;
use lsp_md::document::BasicDocument;

fn change(sl: usize, sc: usize, el: usize, ec: usize, text: &str) -> ChangeEvent {
    ChangeEvent {
        range: Some(PosRange {
            start: Position { line: sl, character: sc },
            end: Position { line: el, character: ec },
        }),
        text: text.to_string(),
    }
}

#[test]
fn apply_change_for_rope() {
    let src = rope_from_str("안녕 세상아\n착하게 live\n");
    let src = src.apply_change(change(0, 0, 0, 2, "Hello"));
    assert_eq!("Hello 세상아\n착하게 live\n", rope_to_string(&src));
}

#[test]
fn apply_multiline_change_for_rope() {
    let src = rope_from_str("안녕 세상아\n착하게 live\n");
    let src = src.apply_change(change(0, 3, 1, 1, "world - 엄"));
    assert_eq!("안녕 world - 엄하게 live\n", rope_to_string(&src));
}

#[test]
fn insert_beginning_for_rope() {
    let src = rope_from_str("pay\nload");
    let src = src.apply_change(change(0, 0, 0, 0, "insert "));
    assert_eq!("insert pay\nload", rope_to_string(&src));
}

#[test]
fn append_for_rope() {
    let src = rope_from_str("pay\nload");
    let src = src.apply_change(change(1, 4, 1, 4, "insert"));
    assert_eq!("pay\nloadinsert", rope_to_string(&src));
}

#[test]
fn replace_whole_for_rope() {
    let src = rope_from_str("pay\nload");
    let src = src.apply_change(change(0, 0, 1, 4, "insert"));
    assert_eq!("insert", rope_to_string(&src));
}

#[test]
fn fullsync_for_rope() {
    let src = rope_from_str("pay\nload");
    let src = src.apply_change(ChangeEvent { range: None, text: "insert".to_string() });
    assert_eq!("insert", rope_to_string(&src));
}

#[test]
fn new_works() {
    let buf = rope_from_str(&"Hello world\n한글\n".repeat(100));
    let formatter = Formatter::new(buf);
    assert!(formatter.sections().is_empty());
}

#[test]
fn partial_update_should_work() {
    let buf = rope_from_str("## Title\n\nSome paragraph\n\n```\nlet a = 1;\n```\n\n");
    let formatter = Formatter::new(buf);
    let updated = formatter.apply_change(change(4, 0, 5, 0, ""));
    assert_eq!(1, updated.sections().len());
}

#[test]
fn partial_update_should_handle_big_tree_changes() {
    let src = "## Title\n\n".to_string() + &"Some paragraph\n\n".repeat(10000);
    let buf = rope_from_str(&src);
    let formatter = Formatter::new(buf);
    let updated = formatter.apply_change(change(4, 0, 5, 0, "```\n"));
    let updated2 = updated.apply_change(change(20002, 0, 20002, 0, "```\n"));
    assert_eq!(1, updated2.sections().len());
}

#[test]
fn incremental_matches_full_reparse() {
    let src = "## Title\n\nSome paragraph\n\n## Another\n\nMore text here\n";
    let formatter = Formatter::new(rope_from_str(src));
    let updated = formatter.apply_change(change(2, 0, 2, 4, "That"));
    let expected = "## Title\n\nThat paragraph\n\n## Another\n\nMore text here\n";
    let fresh = Formatter::new(rope_from_str(expected));
    assert_eq!(fresh.sections(), updated.sections());
}

#[test]
fn basic_document_sections_should_work() {
    let src = "\n## Title\n\nSome paragraph\n\n### Subsection\n\nSome subsection\n\n---\n\n## Another title\n\nAnother paragraph for another note\n";
    let formatter = Formatter::new(rope_from_str(src));
    let sections = formatter.sections();

    assert_eq!(sections.len(), 2);

    assert_eq!("Title", &src[sections[0].title.start..sections[0].title.end]);
    assert_eq!(1, sections[0].range.start);
    assert_eq!(65, sections[0].range.end);

    assert_eq!("Another title", &src[sections[1].title.start..sections[1].title.end]);
    assert_eq!(65, sections[1].range.start);
    assert_eq!(118, sections[1].range.end);
}

#[test]
fn tests_test_format() {
    let src = "\n# Section 1\n\nSome really long content which need to be formatted to have newline after HERE and another line after previous HERE\n\n---\n\n## Section 2\n\nContent of section 2...\n\n### Subsection";
    let doc = TestDoc(src);
    let formatter = Formatter::new(rope_from_str(src));
    let range = PosRange {
        start: Position { line: 1, character: 0 },
        end: Position { line: 7, character: 0 },
    };

    let expected = src.to_string().replace("HERE and", "HERE\nand");

    assert_eq!(
        Some(expected),
        doc.apply_edits(&formatter.format(range).unwrap())
    );
}

#[test]
fn tests_format_should_ignore_one_big_line() {
    let src = "somereallylongstringisnotabletoformattomultiplelinestheyshoujldkeptsinglelineasisblahblahhaha1234567";
    let doc = TestDoc(src);
    let formatter = Formatter::new(rope_from_str(src));
    assert_eq!(
        Some(src.to_string()),
        doc.apply_edits(
            &formatter
                .format(PosRange {
                    start: Position { line: 0, character: 0 },
                    end: Position { line: 0, character: 100 },
                })
                .unwrap()
        )
    );
}

#[test]
fn tests_format_should_break_after_long_line() {
    let src = "somereallylongstringisnotabletoformattomultiplelinestheyshoujldkeptsinglelineasisb ahblahhaha1234567";
    let doc = TestDoc(src);
    let formatter = Formatter::new(rope_from_str(src));
    assert_eq!(
        Some(src.to_string().replace("isb ahblah", "isb\nahblah")),
        doc.apply_edits(
            &formatter
                .format(PosRange {
                    start: Position { line: 0, character: 0 },
                    end: Position { line: 0, character: 100 },
                })
                .unwrap()
        )
    );
}

#[test]
fn tests_format_should_break_single_line_into_multiple() {
    let src = "a somereallylongstringisnotabletoformattomultiplelinestheyshoujldkeptsinglelineasisb ahblahhaha1234567";
    let doc = TestDoc(src);
    let formatter = Formatter::new(rope_from_str(src));
    assert_eq!(
        Some("a\nsomereallylongstringisnotabletoformattomultiplelinestheyshoujldkeptsinglelineasisb\nahblahhaha1234567".to_string()),
        doc.apply_edits(&formatter.format(PosRange {
            start: Position { line: 0, character: 0 },
            end: Position { line: 0, character: 100 },
        }).unwrap())
    );
}

#[test]
fn format_should_keep_line_breaks() {
    let src = "Paragraph  \n  with  \nline break\n";
    let doc = TestDoc(src);
    let formatter = Formatter::new(rope_from_str(src));
    let range = PosRange {
        start: Position { line: 0, character: 0 },
        end: Position { line: src.lines().count(), character: 0 },
    };
    assert_eq!(
        Some("Paragraph  \nwith  \nline break\n".to_string()),
        doc.apply_edits(&formatter.format(range).unwrap())
    );
}

#[test]
fn tree_sections_agree_with_scan_on_ranges() {
    // same-level headings: nested deeper sections belong to their parent in
    // the tree, so only a flat document keeps both sectionings aligned
    let src = "\n## Alpha\n\nfirst body\n\n## Beta\n\nsecond body";
    let scanned = lsp_md::document_v2::Document::parse(src).sections();
    let tree = Formatter::new(rope_from_str(src)).sections();
    assert_eq!(scanned.len(), tree.len());
    for (a, b) in scanned.iter().zip(tree.iter()) {
        assert_eq!(a.range, b.range);
    }
}
