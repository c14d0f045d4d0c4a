use lsp_md::document::{SliceAccess, DocumentExt};
use lsp_md::document_adapter::{Position, LspAdapter, DocumentLsp};
use lsp_md::document_v2::Document;
use lsp_md::incremental_sync::{ChangeEvent, IncrementalSync, TextEdit};
use lsp_md::document_adapter::PosRange;
use lsp_md::test_doc::TestDoc;
use lsp_md::test_doc_v2::TestDoc2;

const BUF: &'static str = "\n# Section 1\n\nContents...\n\n---\n\n## Section 2\n\nContent of section 2...\n\n### Subsection";

#[test]
fn test_offset_conversion() {
    let doc = Document::parse(BUF);
    assert_eq!(Some(Position { line: 0, character: 0 }), doc.offset_to_position(0));
    assert_eq!(Some(Position { line: 1, character: 0 }), doc.offset_to_position(1));
    assert_eq!(Some(Position { line: 1, character: 8 }), doc.offset_to_position(9));
    assert_eq!(Some(Position { line: 1, character: 9 }), doc.offset_to_position(10));
    assert_eq!(Some(Position { line: 1, character: 10 }), doc.offset_to_position(11));
    assert_eq!(Some(Position { line: 1, character: 11 }), doc.offset_to_position(12));
    assert_eq!(Some(Position { line: 7, character: 0 }), doc.offset_to_position(32));
    assert_eq!(Some(Position { line: 7, character: 12 }), doc.offset_to_position(44));

    assert_eq!(Some(9), doc.position_to_offset(&Position { line: 1, character: 8 }));
    assert_eq!(Some(32), doc.position_to_offset(&Position { line: 7, character: 0 }));
}

#[test]
fn test_offset_unicode() {
    let src = lsp_md::rope_buf::rope_from_str("한글 텍스트\n 좋아요 좋아요\n");

    let pairs = vec![
        (0, Position { line: 0, character: 0 }),
        (6, Position { line: 0, character: 2 }),
        (7, Position { line: 0, character: 3 }),
        (10, Position { line: 0, character: 4 }),
        (16, Position { line: 0, character: 6 }),
        (17, Position { line: 1, character: 0 }),
        (18, Position { line: 1, character: 1 }),
    ];

    for (offset, pos) in pairs {
        assert_eq!(Some(pos), src.offset_to_position(offset));
        assert_eq!(Some(offset), src.position_to_offset(&pos));
    }
}

#[test]
fn offset_round_trip() {
    let doc = TestDoc::new("alpha beta\ngamma 한글\n\ndelta".to_string());
    let text = "alpha beta\ngamma 한글\n\ndelta";
    for o in 0..=text.len() {
        if text.is_char_boundary(o) {
            let pos = doc.offset_to_position(o).unwrap();
            assert_eq!(Some(o), doc.position_to_offset(&pos));
        } else {
            assert_eq!(None, doc.offset_to_position(o));
        }
    }
    assert_eq!(None, doc.offset_to_position(text.len() + 1));
    assert_eq!(None, doc.position_to_offset(&Position { line: 9, character: 0 }));
    assert_eq!(None, doc.position_to_offset(&Position { line: 0, character: 11 }));
}

#[test]
fn apply_change_replaces_span() {
    let doc = TestDoc::new("안녕 세상아\n착하게 live\n".to_string());
    let doc = doc.apply_change(ChangeEvent {
        range: Some(PosRange {
            start: Position { line: 0, character: 0 },
            end: Position { line: 0, character: 2 },
        }),
        text: "Hello".to_string(),
    });
    assert_eq!("Hello 세상아\n착하게 live\n".to_string(), doc.into_string());
}

#[test]
fn apply_multiline_change() {
    let doc = TestDoc2::new("안녕 세상아\n착하게 live\n".to_string());
    let doc = doc.apply_change(ChangeEvent {
        range: Some(PosRange {
            start: Position { line: 0, character: 3 },
            end: Position { line: 1, character: 1 },
        }),
        text: "world - 엄".to_string(),
    });
    assert_eq!("안녕 world - 엄하게 live\n".to_string(), doc.into_string());
}

#[test]
fn full_sync_replaces_document() {
    let doc = TestDoc::new("pay\nload".to_string());
    let doc = doc.apply_change(ChangeEvent { range: None, text: "insert".to_string() });
    assert_eq!("insert".to_string(), doc.into_string());
}

#[test]
fn apply_edits_batch() {
    let doc = lsp_md::util::TestDoc("one two three");
    let edits = vec![TextEdit {
        range: PosRange {
            start: Position { line: 0, character: 4 },
            end: Position { line: 0, character: 7 },
        },
        new_text: "TWO".to_string(),
    }];
    assert_eq!(Some("one TWO three".to_string()), doc.apply_edits(&edits));
}

#[test]
fn titles_and_sections() {
    let doc = Document::parse(BUF);
    assert_eq!(Some("# Section 1".to_string()), doc.title(0));
    assert_eq!(Some("## Section 2".to_string()), doc.title(1));
    assert_eq!(None, doc.title(2));
    assert_eq!(
        Some("## Section 2\n\nContent of section 2...\n\n### Subsection".to_string()),
        doc.text(1)
    );
    assert_eq!(Some(0), doc.position_to_section(&Position { line: 1, character: 0 }));
    assert_eq!(Some(1), doc.position_to_section(&Position { line: 7, character: 5 }));
    assert_eq!(None, doc.position_to_section(&Position { line: 0, character: 0 }));
    let titles = doc.section_titles();
    assert_eq!(2, titles.len());
    assert_eq!(
        PosRange {
            start: Position { line: 1, character: 0 },
            end: Position { line: 1, character: 11 },
        },
        titles[0]
    );
    assert_eq!(Some(titles[1]), doc.section_to_title_range(1));
    assert_eq!(None, doc.section_to_title_range(2));
}

#[test]
fn slice_returns_span() {
    let doc = Document::parse(BUF);
    assert_eq!("# Section 1", doc.slice(1, 12));
}
