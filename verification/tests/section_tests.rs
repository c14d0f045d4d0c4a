use lsp_md::document::{ByteRange, Section};
use lsp_md::document::BasicDocument;

const BUF: &'static str = "\n# Section 1\n\nContents...\n\n---\n\n## Section 2\n\nContent of section 2...\n\n### Subsection";

#[test]
fn section_test() {
    assert_eq!(
        lsp_md::section::Sections::new(vec![
            ByteRange { start: 1, end: 12 },
            ByteRange { start: 32, end: 44 },
        ]),
        lsp_md::section::Sections::parse(BUF)
    );
}

#[test]
fn sections_test() {
    assert_eq!(
        lsp_md::sections::Sections::new(vec![
            ByteRange { start: 1, end: 13 },
            ByteRange { start: 33, end: 45 },
        ]),
        lsp_md::sections::parse(
            "\n## Section 1\n\nContents...\n\n---\n\n## Section 2\n\nContent of section 2...\n\n### Subsection"
        )
    );
}

#[test]
fn mod_test() {
    assert_eq!(
        lsp_md::section_index::Sections::new(
            vec![
                Section {
                    title: ByteRange { start: 1, end: 12 },
                    range: ByteRange { start: 1, end: 32 },
                },
                Section {
                    title: ByteRange { start: 32, end: 44 },
                    range: ByteRange { start: 32, end: 85 },
                },
            ],
            BUF.to_string()
        ),
        lsp_md::section_index::Sections::parse(BUF)
    );
}

#[test]
fn test_parse() {
    assert_eq!(
        vec![
            Section {
                title: ByteRange { start: 1, end: 12 },
                range: ByteRange { start: 1, end: 32 },
            },
            Section {
                title: ByteRange { start: 32, end: 44 },
                range: ByteRange { start: 32, end: 85 },
            },
        ],
        lsp_md::document_v2::Document::from_str(BUF).sections(),
    );
}

#[test]
fn section_index_titles() {
    let s = lsp_md::section_index::Sections::parse(BUF);
    assert_eq!(
        vec![
            ByteRange { start: 1, end: 12 },
            ByteRange { start: 32, end: 44 },
        ],
        s.sections()
    );
}

#[test]
fn no_heading_no_sections() {
    let doc = lsp_md::document_v2::Document::parse("just text\nwith no headings\n");
    assert_eq!(0, doc.sections().len());
}

#[test]
fn heading_at_document_start() {
    let doc = lsp_md::document_v2::Document::parse("# A\nx\n## B\ny\n");
    let secs = doc.sections();
    assert_eq!(2, secs.len());
    assert_eq!(ByteRange { start: 0, end: 3 }, secs[0].title);
    assert_eq!(ByteRange { start: 0, end: 6 }, secs[0].range);
    assert_eq!(ByteRange { start: 6, end: 10 }, secs[1].title);
    assert_eq!(ByteRange { start: 6, end: 13 }, secs[1].range);
}

#[test]
fn deeper_headings_do_not_start_sections() {
    let s = lsp_md::section::Sections::parse("### deep\n#### deeper\n");
    assert_eq!(lsp_md::section::Sections::new(vec![]), s);
}
