use lsp_md::document_adapter::{Position, PosRange};
use lsp_md::document_v2::Document;
use lsp_md::format::LspRangeFormat;
use lsp_md::incremental_sync::TextEdit;
use lsp_md::util::QuickEdit;
use lsp_md::format_naive::LspRangeFormat as NaiveFormat;

const SRC: &'static str = "\n# Section 1\n\nSome really long content which need to be formatted to have newline after HERE and another line after previous HERE\n\n---\n\n## Section 2\n\nContent of section 2...\n\n### Subsection";

#[test]
fn format_test_format() {
    let doc = Document::parse(SRC);
    let range = PosRange {
        start: Position { line: 1, character: 0 },
        end: Position { line: 7, character: 0 },
    };

    assert_eq!(
        Some(vec![TextEdit {
            range: PosRange {
                start: Position { line: 3, character: 78 },
                end: Position { line: 3, character: 79 },
            },
            new_text: "\n".to_string(),
        }]),
        lsp_md::format::LspRangeFormat::format(&doc, range)
    );
}

#[test]
fn format_format_should_ignore_one_big_line() {
    let src = "somereallylongstringisnotabletoformattomultiplelinestheyshoujldkeptsinglelineasisblahblahhaha1234567";
    let doc = Document::parse(src);
    assert_eq!(
        Some(vec![]),
        lsp_md::format::LspRangeFormat::format(&doc, PosRange {
            start: Position { line: 0, character: 0 },
            end: Position { line: 0, character: 100 },
        })
    );
}

#[test]
fn format_format_should_break_after_long_line() {
    let src = "somereallylongstringisnotabletoformattomultiplelinestheyshoujldkeptsinglelineasisb ahblahhaha1234567";
    let doc = Document::parse(src);
    assert_eq!(
        Some(vec![doc.edit(82, 83, "\n").unwrap()]),
        lsp_md::format::LspRangeFormat::format(&doc, PosRange {
            start: Position { line: 0, character: 0 },
            end: Position { line: 0, character: 100 },
        })
    );
}

#[test]
fn format_format_should_break_single_line_into_multiple() {
    let src = "a somereallylongstringisnotabletoformattomultiplelinestheyshoujldkeptsinglelineasisb ahblahhaha1234567";
    let doc = Document::parse(src);
    assert_eq!(
        Some(vec![
            doc.edit(1, 2, "\n").unwrap(),
            doc.edit(84, 85, "\n").unwrap(),
        ]),
        lsp_md::format::LspRangeFormat::format(&doc, PosRange {
            start: Position { line: 0, character: 0 },
            end: Position { line: 0, character: 100 },
        })
    );
}

#[test]
fn format_out_of_range_is_none() {
    let doc = Document::parse("one line");
    assert_eq!(
        None,
        lsp_md::format::LspRangeFormat::format(&doc, PosRange {
            start: Position { line: 3, character: 0 },
            end: Position { line: 4, character: 0 },
        })
    );
}

#[test]
fn naive_format_rebuilds_range() {
    let doc = lsp_md::util::TestDoc("short one\n\nsee https://example.com for details\n");
    let edits = NaiveFormat::format(
        &doc,
        PosRange {
            start: Position { line: 0, character: 3 },
            end: Position { line: 3, character: 0 },
        },
    )
    .unwrap();
    assert_eq!(1, edits.len());
    assert_eq!(
        "short one\n\nsee\nhttps://example.com\nfor details",
        edits[0].new_text
    );
    assert_eq!(Position { line: 0, character: 0 }, edits[0].range.start);
}

#[test]
fn naive_format_out_of_range_is_none() {
    let doc = lsp_md::util::TestDoc("text");
    assert_eq!(
        None,
        NaiveFormat::format(
            &doc,
            PosRange {
                start: Position { line: 0, character: 0 },
                end: Position { line: 5, character: 0 },
            },
        )
    );
}
