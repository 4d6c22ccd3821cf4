use files_ui::markdown_view::{
    escape, Block, Markdown, MdEvent, MdTag, MdTagEnd, ParseState, SpanStyle, TextKind,
};

#[test]
fn parses_blocks_and_inline_styles() {
    let markdown = Markdown::parse(
        "```rust\nfn main()\n```\n\nSome **bold** and `code`.\n\n- one\n- two\n\n1. first\n\n---\n# Title",
    );
    let kinds: Vec<&str> = markdown
        .blocks
        .iter()
        .map(|block| match block {
            Block::Text {
                kind: TextKind::Heading,
                ..
            } => "heading",
            Block::Text {
                marker: Some(_), ..
            } => "item",
            Block::Text { .. } => "text",
            Block::Code { .. } => "code",
            Block::Rule => "rule",
        })
        .collect();
    assert_eq!(
        kinds,
        vec!["code", "text", "item", "item", "item", "rule", "heading"]
    );
    let Block::Code { language, text } = &markdown.blocks[0] else {
        panic!("code first");
    };
    assert_eq!(
        (language.as_deref(), text.as_str()),
        (Some("rust"), "fn main()")
    );
    let Block::Text { spans, .. } = &markdown.blocks[1] else {
        panic!("paragraph second");
    };
    assert!(spans.iter().any(|s| s.style.bold && s.text == "bold"));
    assert!(spans.iter().any(|s| s.style.code && s.text == "code"));
    let markers: Vec<Option<&str>> = markdown.blocks[2..5]
        .iter()
        .map(|block| match block {
            Block::Text { marker, .. } => marker.as_deref(),
            _ => None,
        })
        .collect();
    assert_eq!(markers, vec![Some("-"), Some("-"), Some("1.")]);
}

#[test]
fn escaping_keeps_text_literal() {
    let text = "a*b_c [x](y) `z`";
    let markdown = Markdown::parse(&escape(text));
    let Block::Text { spans, .. } = &markdown.blocks[0] else {
        panic!("one paragraph");
    };
    let joined: String = spans.iter().map(|s| s.text.as_str()).collect();
    assert_eq!(joined, text);
}

#[test]
fn escaping_keeps_indentation_and_line_breaks() {
    assert_eq!(escape("\tx"), "\u{a0}\u{a0}\u{a0}\u{a0}x");
    assert_eq!(escape("a.b\n c d"), "a\\.b\n\n\u{a0}c d");
    assert_eq!(escape("x  y"), "x  y");
    assert_eq!(escape(""), "");
}

fn text(s: &str) -> MdEvent {
    MdEvent::Text(s.to_string())
}

#[test]
fn styles_merge_into_spans_and_blank_paragraphs_vanish() {
    let events = vec![
        MdEvent::Start(MdTag::Paragraph),
        text("a"),
        MdEvent::Start(MdTag::Strong),
        text("b"),
        MdEvent::SoftBreak,
        text("c"),
        MdEvent::End(MdTagEnd::Strong),
        text("d"),
        MdEvent::End(MdTagEnd::Paragraph),
        MdEvent::Start(MdTag::Paragraph),
        text("  "),
        MdEvent::End(MdTagEnd::Paragraph),
    ];
    let markdown = Markdown::from_events(&events);
    assert_eq!(markdown.blocks.len(), 1);
    let Block::Text { spans, kind, list_depth, marker, quoted } = &markdown.blocks[0] else {
        panic!("a paragraph");
    };
    assert_eq!(*kind, TextKind::Paragraph);
    assert_eq!((*list_depth, marker.is_none(), *quoted), (0, true, false));
    let texts: Vec<(&str, bool)> = spans.iter().map(|s| (s.text.as_str(), s.style.bold)).collect();
    assert_eq!(texts, vec![("a", false), ("b c", true), ("d", false)]);
    assert!(Markdown::from_events(&Vec::new()).is_empty());
}

#[test]
fn ordered_items_count_up_and_fences_name_their_language() {
    let events = vec![
        MdEvent::Start(MdTag::List(Some(3))),
        MdEvent::Start(MdTag::Item),
        text("x"),
        MdEvent::End(MdTagEnd::Item),
        MdEvent::Start(MdTag::Item),
        text("y"),
        MdEvent::End(MdTagEnd::Item),
        MdEvent::End(MdTagEnd::List),
        MdEvent::Start(MdTag::CodeBlock(Some("rust,ignore".to_string()))),
        text("let a = 1;\n"),
        MdEvent::End(MdTagEnd::CodeBlock),
        MdEvent::Start(MdTag::CodeBlock(Some(String::new()))),
        text("plain\n\n"),
        MdEvent::End(MdTagEnd::CodeBlock),
        MdEvent::Rule,
    ];
    let markdown = Markdown::from_events(&events);
    assert_eq!(markdown.blocks.len(), 5);
    let markers: Vec<(Option<&str>, usize)> = markdown.blocks[..2]
        .iter()
        .map(|b| match b {
            Block::Text { marker, list_depth, .. } => (marker.as_deref(), *list_depth),
            _ => (None, 9),
        })
        .collect();
    assert_eq!(markers, vec![(Some("3."), 1), (Some("4."), 1)]);
    assert_eq!(
        markdown.blocks[2],
        Block::Code { language: Some("rust".to_string()), text: "let a = 1;".to_string() }
    );
    assert_eq!(markdown.blocks[3], Block::Code { language: None, text: "plain\n".to_string() });
    assert_eq!(markdown.blocks[4], Block::Rule);
}

#[test]
fn headings_and_links_style_their_text() {
    let mut state = ParseState::new();
    state.apply(&MdEvent::Start(MdTag::Heading));
    assert_eq!(state.style(), SpanStyle { bold: true, code: false, link: false });
    state.apply(&MdEvent::Start(MdTag::Link));
    assert_eq!(state.style(), SpanStyle { bold: true, code: false, link: true });
    state.push("t", state.style());
    state.push("u", SpanStyle { bold: true, code: false, link: true });
    state.flush();
    state.flush();
    let markdown = Markdown::from_events(&vec![
        MdEvent::Start(MdTag::BlockQuote),
        MdEvent::Start(MdTag::Paragraph),
        MdEvent::Code("c".to_string()),
        MdEvent::End(MdTagEnd::Paragraph),
        MdEvent::End(MdTagEnd::BlockQuote),
    ]);
    let Block::Text { spans, quoted, .. } = &markdown.blocks[0] else {
        panic!("a quote");
    };
    assert!(*quoted);
    assert!(spans[0].style.code && spans[0].text == "c");
}
