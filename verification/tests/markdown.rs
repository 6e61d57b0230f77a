use markdown_editor::markdown::{item_numbers_fit, markdown_to_plain_text, plain_text_from_events, Block, MdEvent};
use markdown_editor::slides::{parse, pptx_of_markdown, slides_from_events};

fn text(s: &str) -> MdEvent {
    MdEvent::Text(s.to_string())
}

#[test]
fn paragraphs_and_headings_end_with_blank_lines() {
    let ev = vec![
        MdEvent::Start(Block::Heading(1)),
        text("Title"),
        MdEvent::End(Block::Heading(1)),
        MdEvent::Start(Block::Paragraph),
        text("one"),
        MdEvent::SoftBreak,
        MdEvent::Code("two".to_string()),
        MdEvent::End(Block::Paragraph),
    ];
    assert_eq!(plain_text_from_events(&ev), "Title\n\none two\n");
}

#[test]
fn ordered_and_nested_lists_are_numbered_and_indented() {
    let ev = vec![
        MdEvent::Start(Block::List(Some(3))),
        MdEvent::Start(Block::Item),
        text("a"),
        MdEvent::Start(Block::List(None)),
        MdEvent::Start(Block::Item),
        text("b"),
        MdEvent::End(Block::Item),
        MdEvent::End(Block::List(None)),
        MdEvent::End(Block::Item),
        MdEvent::Start(Block::Item),
        text("c"),
        MdEvent::End(Block::Item),
        MdEvent::End(Block::List(Some(3))),
    ];
    assert_eq!(plain_text_from_events(&ev), "3. a  • b\n\n\n4. c\n");
}

#[test]
fn rules_quotes_code_and_breaks() {
    let ev = vec![
        MdEvent::Start(Block::BlockQuote),
        text("q"),
        MdEvent::End(Block::BlockQuote),
        MdEvent::Rule,
        MdEvent::Start(Block::CodeBlock),
        text("x"),
        MdEvent::HardBreak,
        MdEvent::End(Block::CodeBlock),
        MdEvent::Other,
    ];
    assert_eq!(plain_text_from_events(&ev), "  q\n\n---\n\n\nx\n");
}

#[test]
fn empty_document_is_one_newline() {
    assert_eq!(plain_text_from_events(&vec![]), "\n");
}

#[test]
fn slides_from_headings_lists_and_paragraphs() {
    let ev = vec![
        MdEvent::Start(Block::Heading(1)),
        text(" Intro "),
        MdEvent::End(Block::Heading(1)),
        MdEvent::Start(Block::Paragraph),
        text("hello"),
        MdEvent::End(Block::Paragraph),
        MdEvent::Start(Block::Heading(3)),
        text("Sub"),
        MdEvent::End(Block::Heading(3)),
        MdEvent::Start(Block::Heading(2)),
        text("Next"),
        MdEvent::End(Block::Heading(2)),
        MdEvent::Start(Block::List(Some(1))),
        MdEvent::Start(Block::Item),
        text("first"),
        MdEvent::End(Block::Item),
        MdEvent::End(Block::List(Some(1))),
        MdEvent::Start(Block::CodeBlock),
        text("let x = 1;\n"),
        MdEvent::End(Block::CodeBlock),
    ];
    let slides = slides_from_events(&ev, "ignored");
    assert_eq!(slides.len(), 2);
    assert_eq!(slides[0].title, "Intro");
    let b0: Vec<_> = slides[0].bullets.iter().map(|b| (b.text.as_str(), b.numbered)).collect();
    assert_eq!(b0, [("hello", false), ("▶ Sub", false)]);
    assert_eq!(slides[1].title, "Next");
    let b1: Vec<_> = slides[1].bullets.iter().map(|b| (b.text.as_str(), b.numbered)).collect();
    assert_eq!(b1, [("first", true), ("📋 let x = 1;", false)]);
}

#[test]
fn list_before_any_heading_opens_a_slide() {
    let ev = vec![
        MdEvent::Start(Block::List(None)),
        MdEvent::Start(Block::Item),
        text("item"),
        MdEvent::End(Block::Item),
        MdEvent::End(Block::List(None)),
    ];
    let slides = slides_from_events(&ev, "- item");
    assert_eq!(slides.len(), 1);
    assert_eq!(slides[0].title, "Slide");
    assert_eq!(slides[0].bullets[0].text, "item");
    assert!(!slides[0].bullets[0].numbered);
}

#[test]
fn document_without_slides_becomes_one() {
    let ev = vec![MdEvent::Start(Block::Paragraph), text("just text"), MdEvent::End(Block::Paragraph)];
    let slides = slides_from_events(&ev, "  just text \n");
    assert_eq!(slides.len(), 1);
    assert_eq!(slides[0].title, "Presentation");
    assert_eq!(slides[0].bullets[0].text, "just text");
}

#[test]
fn plain_text_of_parsed_markdown() {
    let md = "# Title\n\nSome **bold** and `code`.\n\n1. one\n2. two\n\n- x\n\n> quote\n\n---\n";
    assert_eq!(
        markdown_to_plain_text(md).unwrap(),
        "Title\n\nSome bold and code.\n\n1. one\n2. two\n\n• x\n\n  quote\n\n\n\n---\n"
    );
    assert_eq!(markdown_to_plain_text("").unwrap(), "\n");
}

#[test]
fn plain_text_of_a_heading_and_numbers() {
    assert_eq!(markdown_to_plain_text("## Hi\n").unwrap(), "Hi\n");
    assert_eq!(markdown_to_plain_text("7. seven\n8. eight\n").unwrap(), "7. seven\n8. eight\n");
}

#[test]
fn slides_of_parsed_markdown() {
    let slides = parse("# Intro\n\nhello\n\n## Next\n\n1. first\n2. second\n");
    assert_eq!(slides.len(), 2);
    assert_eq!(slides[0].title, "Intro");
    assert_eq!(slides[0].bullets.len(), 1);
    assert_eq!(slides[0].bullets[0].text, "hello");
    assert_eq!(slides[1].title, "Next");
    let b1: Vec<_> = slides[1].bullets.iter().map(|b| (b.text.as_str(), b.numbered)).collect();
    assert_eq!(b1, [("first", true), ("second", true)]);
    let plain = parse("just text");
    assert_eq!(plain.len(), 1);
    assert_eq!(plain[0].title, "Presentation");
}

#[test]
fn pptx_bytes_of_markdown() {
    let (slides, bytes) = pptx_of_markdown("# Deck\n\n- one\n", "Title");
    assert_eq!(slides.len(), 1);
    assert_eq!(slides[0].title, "Deck");
    let bytes = bytes.unwrap();
    assert!(bytes.len() > 4);
    assert_eq!(&bytes[..2], b"PK");
}

#[test]
fn item_numbers_are_bounded_by_items() {
    let start = u64::MAX - 1;
    let mut ev = vec![
        MdEvent::Start(Block::List(Some(start))),
        MdEvent::Start(Block::Item),
        text("x"),
        MdEvent::SoftBreak,
        text("y"),
        MdEvent::End(Block::Item),
        MdEvent::End(Block::List(Some(start))),
    ];
    assert!(item_numbers_fit(&ev));
    assert_eq!(plain_text_from_events(&ev), "18446744073709551614. x y\n");
    ev.insert(6, MdEvent::Start(Block::Item));
    ev.insert(7, MdEvent::End(Block::Item));
    assert!(!item_numbers_fit(&ev));
}
