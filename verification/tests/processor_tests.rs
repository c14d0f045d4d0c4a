use lsp_md::processors::{process_section, process_list_items};

#[test]
fn process_section_should_format_properly() {
    assert_eq!(
        "a\nsomereallylongstringisnotabletoformattomultiplelinestheyshoujldkeptsinglelineasisb\nahblahhaha1234567",
        process_section("a somereallylongstringisnotabletoformattomultiplelinestheyshoujldkeptsinglelineasisb ahblahhaha1234567")
    );
}

#[test]
fn process_section_should_format_url() {
    assert_eq!(
        "a:\nhttps://someurl.com\nahblahhaha1234567",
        process_section("a: https://someurl.com ahblahhaha1234567")
    );
}

#[test]
fn process_section_bullet_items() {
    let src = "- item 1\n- item 2\n  - subitem\n- item 3  \n  multiline content\n- item 4: https://someurl.com is good\n- item 5";
    assert_eq!(
        "- item 1\n- item 2\n  - subitem\n- item 3  \n  multiline content\n- item 4:\n  https://someurl.com\n  is good\n- item 5",
        process_section(src)
    );
}

#[test]
fn hard_breaks_preserved() {
    assert_eq!(
        "Paragraph  \nwith  \nline break",
        process_section("Paragraph  \n  with  \nline break")
    );
}

#[test]
fn long_single_word_untouched() {
    let word = "x".repeat(103);
    assert_eq!(word, process_section(&word));
}

#[test]
fn short_line_untouched() {
    assert_eq!("short line of words", process_section("short line of words"));
}

#[test]
fn list_items_direct() {
    assert_eq!("- a\n- b", process_list_items("- a\n- b"));
}

#[test]
fn nested_bullet_wraps_under_own_indent() {
    let src = "- top item with several words here\n  - nested item that has quite a lot of words so that it must wrap somewhere past the limit";
    let out = process_section(src);
    let lines: Vec<&str> = out.split('\n').collect();
    assert!(lines.len() > 2);
    assert_eq!("- top item with several words here", lines[0]);
    assert!(lines[1].starts_with("  - "));
    for cont in &lines[2..] {
        assert!(cont.starts_with("    "));
        assert!(!cont.starts_with("     "));
    }
}

#[test]
fn url_mid_sentence_isolated() {
    assert_eq!(
        "see\nhttps://example.com\nfor details",
        process_section("see https://example.com for details")
    );
}
