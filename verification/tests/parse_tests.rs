use mdparse::ast::{InlineMode, ListType, Markdown, MarkdownText};
use mdparse::parser::{parse_md, parse_md_text};

fn cs(s: &str) -> Vec<char> {
    s.chars().collect()
}

fn text(s: &str) -> MarkdownText {
    MarkdownText::Text(cs(s))
}

#[test]
fn empty_input_gives_empty_document() {
    let input = cs("");
    assert_eq!(parse_md(&input), Vec::<Markdown>::new());
}

#[test]
fn heading_level_counts_markers() {
    let input = cs("### Title");
    assert_eq!(parse_md(&input), vec![Markdown::Heading(3, vec![text("Title")])]);
}

#[test]
fn heading_without_text() {
    let input = cs("#");
    assert_eq!(parse_md(&input), vec![Markdown::Heading(1, vec![])]);
}

#[test]
fn heading_skips_whitespace_after_markers() {
    let input = cs("##   spaced");
    assert_eq!(parse_md(&input), vec![Markdown::Heading(2, vec![text("spaced")])]);
}

#[test]
fn bold_honors_nested_italic_not_bold() {
    let input = cs("*a _b_ c*");
    let spans = parse_md_text(&input, 0, input.len(), InlineMode::TopLevel);
    assert_eq!(
        spans,
        vec![MarkdownText::Bold(vec![
            text("a "),
            MarkdownText::Italic(vec![text("b")]),
            text(" c"),
        ])],
    );
}

#[test]
fn bold_inside_paragraph() {
    let input = cs("*a _b_ c*");
    assert_eq!(
        parse_md(&input),
        vec![Markdown::Paragraph(vec![MarkdownText::Bold(vec![
            text("a "),
            MarkdownText::Italic(vec![text("b")]),
            text(" c"),
        ])])],
    );
}

#[test]
fn italic_honors_nested_bold() {
    let input = cs("_a *b* c_");
    let spans = parse_md_text(&input, 0, input.len(), InlineMode::TopLevel);
    assert_eq!(
        spans,
        vec![MarkdownText::Italic(vec![
            text("a "),
            MarkdownText::Bold(vec![text("b")]),
            text(" c"),
        ])],
    );
}

#[test]
fn unordered_list_items_split_per_line() {
    let input = cs("- one\n- two\n");
    assert_eq!(
        parse_md(&input),
        vec![Markdown::List(ListType::Unordered, vec![vec![text("one")], vec![text("two")]])],
    );
}

#[test]
fn ordered_list_strips_ordinal_prefix() {
    let input = cs("1. a\n2. b\n");
    assert_eq!(
        parse_md(&input),
        vec![Markdown::List(ListType::Ordered, vec![vec![text("a")], vec![text("b")]])],
    );
}

#[test]
fn ordered_list_wide_ordinals() {
    let input = cs("10. a\n11. b\n");
    assert_eq!(
        parse_md(&input),
        vec![Markdown::List(ListType::Ordered, vec![vec![text("a")], vec![text("b")]])],
    );
}

#[test]
fn list_ends_at_other_kind() {
    let input = cs("1. a\n- b\n");
    assert_eq!(
        parse_md(&input),
        vec![
            Markdown::List(ListType::Ordered, vec![vec![text("a")]]),
            Markdown::List(ListType::Unordered, vec![vec![text("b")]]),
        ],
    );
}

#[test]
fn list_ends_at_non_marker() {
    let input = cs("- a\nx");
    assert_eq!(
        parse_md(&input),
        vec![
            Markdown::List(ListType::Unordered, vec![vec![text("a")]]),
            Markdown::Paragraph(vec![text("x")]),
        ],
    );
}

#[test]
fn code_fence_content_not_inline_parsed() {
    let input = cs("```*x*```");
    assert_eq!(parse_md(&input), vec![Markdown::Code(cs("*x*"))]);
}

#[test]
fn two_backtick_fence() {
    let input = cs("``x``y");
    assert_eq!(
        parse_md(&input),
        vec![Markdown::Code(cs("x")), Markdown::Paragraph(vec![text("y")])],
    );
}

#[test]
fn single_fence_code() {
    let input = cs("`code`x");
    assert_eq!(
        parse_md(&input),
        vec![Markdown::Code(cs("code")), Markdown::Paragraph(vec![text("x")])],
    );
}

#[test]
fn unterminated_fence_captures_rest() {
    let input = cs("```");
    assert_eq!(parse_md(&input), vec![Markdown::Code(cs(""))]);
}

#[test]
fn plain_text_reparse_is_single_paragraph() {
    let input = cs("hello world");
    let doc = parse_md(&input);
    assert_eq!(doc, vec![Markdown::Paragraph(vec![text("hello world")])]);
    // Reconstruct the paragraph's only text leaf and parse it again:
    // the structure is unchanged.
    let rebuilt = match &doc[0] {
        Markdown::Paragraph(spans) => match &spans[0] {
            MarkdownText::Text(raw) => raw.clone(),
            other => panic!("expected a text leaf, got {:?}", other),
        },
        other => panic!("expected a paragraph, got {:?}", other),
    };
    assert_eq!(parse_md(&rebuilt), doc);
}

#[test]
fn blank_line_terminates_paragraph() {
    let input = cs("a\n\nb\n");
    assert_eq!(
        parse_md(&input),
        vec![
            Markdown::Paragraph(vec![text("a\n")]),
            Markdown::Paragraph(vec![text("b\n")]),
        ],
    );
}

#[test]
fn paragraph_spans_cross_linebreak() {
    let input = cs("a *b\nc* d");
    assert_eq!(
        parse_md(&input),
        vec![Markdown::Paragraph(vec![
            text("a "),
            MarkdownText::Bold(vec![text("b\nc")]),
            text(" d"),
        ])],
    );
}

#[test]
fn blockquote_strips_markers_and_joins() {
    let input = cs("> hi\n> there\n");
    assert_eq!(parse_md(&input), vec![Markdown::BlockQuote(vec![text("hi\nthere\n")])]);
}

#[test]
fn unterminated_bold_absorbs_rest() {
    let input = cs("*abc");
    assert_eq!(
        parse_md(&input),
        vec![Markdown::Paragraph(vec![MarkdownText::Bold(vec![text("abc")])])],
    );
}

#[test]
fn empty_bold_span() {
    let input = cs("**");
    assert_eq!(
        parse_md(&input),
        vec![Markdown::Paragraph(vec![MarkdownText::Bold(vec![])])],
    );
}

#[test]
fn stray_markers_do_not_panic() {
    let star = cs("*");
    assert_eq!(parse_md(&star), vec![Markdown::Paragraph(vec![MarkdownText::Bold(vec![])])]);
    let quote = cs(">");
    assert_eq!(parse_md(&quote), vec![Markdown::BlockQuote(vec![text("\n")])]);
    let newlines = cs("\n\n");
    assert_eq!(parse_md(&newlines), Vec::<Markdown>::new());
    let underscore = cs("_");
    assert_eq!(
        parse_md(&underscore),
        vec![Markdown::Paragraph(vec![MarkdownText::Italic(vec![])])],
    );
}

#[test]
fn heading_markers_at_end_of_input() {
    let input = cs("##");
    assert_eq!(parse_md(&input), vec![Markdown::Heading(2, vec![])]);
}

#[test]
fn heading_whitespace_skip_crosses_newlines() {
    // The whitespace skipped after the marker run includes line breaks,
    // so the heading text is the next non-blank line.
    let input = cs("#\n\nText");
    assert_eq!(parse_md(&input), vec![Markdown::Heading(1, vec![text("Text")])]);
}

#[test]
fn bold_nested_in_italic_followed_by_text() {
    let input = cs("_x*y*z_w");
    let spans = parse_md_text(&input, 0, input.len(), InlineMode::TopLevel);
    assert_eq!(
        spans,
        vec![
            MarkdownText::Italic(vec![
                text("x"),
                MarkdownText::Bold(vec![text("y")]),
                text("z"),
            ]),
            text("w"),
        ],
    );
}

#[test]
fn adjacent_bold_spans() {
    let input = cs("*a**b*");
    let spans = parse_md_text(&input, 0, input.len(), InlineMode::TopLevel);
    assert_eq!(
        spans,
        vec![
            MarkdownText::Bold(vec![text("a")]),
            MarkdownText::Bold(vec![text("b")]),
        ],
    );
}

#[test]
fn blank_line_between_items_keeps_one_list() {
    // Whitespace between items is skipped, so a blank line does not
    // split a list the way it splits paragraphs.
    let input = cs("- a\n\n- b");
    assert_eq!(
        parse_md(&input),
        vec![Markdown::List(ListType::Unordered, vec![vec![text("a")], vec![text("b")]])],
    );
}

#[test]
fn ordered_marker_without_content() {
    let input = cs("1");
    assert_eq!(parse_md(&input), vec![Markdown::List(ListType::Ordered, vec![vec![]])]);
}
