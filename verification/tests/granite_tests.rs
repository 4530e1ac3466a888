use pillar::granite::{parse, parse_granite, parse_header, Page};

#[test]
fn invalid_blocks() {
    let input = r#"[invalid block [a, href: "normal block"|this one is normal]]"#;
    let expected = r#"[invalid block <a href="normal block">this one is normal</a>]"#;
    assert_eq!(expected.to_string(), parse_granite(&input.to_string()))
}

#[test]
fn plain_text_passes_through_unchanged() {
    let input = "plain text, no: marks | here";
    assert_eq!(input.to_string(), parse_granite(input));
}

#[test]
fn simple_block_becomes_element() {
    assert_eq!("<p>text</p>".to_string(), parse_granite("[p | text]"));
}

#[test]
fn attributes_are_rewritten() {
    assert_eq!(
        "<a href=\"x\">text</a>".to_string(),
        parse_granite("[a, href: \"x\" | text]")
    );
}

#[test]
fn several_attributes_space_joined() {
    assert_eq!(
        "<img src=\"a.png\" alt=\"pic\"></img>".to_string(),
        parse_granite("[img, src: \"a.png\", alt: \"pic\" | ]")
    );
}

#[test]
fn nested_blocks_close_innermost_first() {
    assert_eq!(
        "<ul><li>one</li><li>two</li></ul>".to_string(),
        parse_granite("[ul | [li | one][li | two]]")
    );
    assert_eq!("<div>a<b>c</b>d</div>".to_string(), parse_granite("[div|a[b|c]d]"));
}

#[test]
fn sibling_blocks_keep_their_order() {
    assert_eq!(
        "<p>text</p> and <p>more</p>".to_string(),
        parse_granite("[p | text] and [p | more]")
    );
}

#[test]
fn quote_before_closing_bracket_keeps_the_tag() {
    assert_eq!("<p>quote \"end\"</p>".to_string(), parse_granite("[p |quote \"end\"]"));
}

#[test]
fn quoted_literal_block_stays_literal() {
    let input = "[\"text with \"quote\"\"]";
    assert_eq!(input.to_string(), parse_granite(input));
}

#[test]
fn unmatched_close_emits_empty_tag() {
    assert_eq!("x</>".to_string(), parse_granite("x]"));
    assert_eq!("</>".to_string(), parse_granite("]"));
}

#[test]
fn unterminated_block_stays_literal() {
    assert_eq!("[x]".to_string(), parse_granite("[x]"));
}

#[test]
fn header_yields_pairs_and_body() {
    let input = "!meta!\ntitle: My Page\ntemplate: blog\n!meta!\nbody line\n";
    let page = parse_header(input);
    assert_eq!(2, page.meta.len());
    assert_eq!("title", page.meta[0].name);
    assert_eq!("My Page", page.meta[0].value);
    assert_eq!("template", page.meta[1].name);
    assert_eq!("blog", page.meta[1].value);
    assert_eq!("body line\n", page.content);
}

#[test]
fn header_without_marker_is_all_body() {
    let page = parse_header("one\ntwo");
    assert_eq!(0, page.meta.len());
    assert_eq!("one\ntwo\n", page.content);
}

#[test]
fn header_short_line_inside_block_goes_to_body() {
    let input = "!meta!\na:b\n!meta!\nrest\n";
    let page = parse_header(input);
    assert_eq!(0, page.meta.len());
    assert_eq!("a:b\nrest\n", page.content);
}

#[test]
fn header_line_without_colon_is_dropped() {
    let input = "!meta!\nnocolonhere\n!meta!\nrest\n";
    let page = parse_header(input);
    assert_eq!(0, page.meta.len());
    assert_eq!("rest\n", page.content);
}

#[test]
fn header_strips_carriage_returns() {
    let input = "!meta!\r\ntitle: A\r\n!meta!\r\nbody\r\n";
    let page = parse_header(input);
    assert_eq!(1, page.meta.len());
    assert_eq!("title", page.meta[0].name);
    assert_eq!("A", page.meta[0].value);
    assert_eq!("body\n", page.content);
}

#[test]
fn parse_runs_header_then_transducer() {
    let input = "!meta!\ntitle: T\n!meta!\n[p | hi]\n";
    let page = parse(input);
    assert_eq!(1, page.meta.len());
    assert_eq!("title", page.meta[0].name);
    assert_eq!("<p>hi</p>\n", page.content);
}

#[test]
fn page_new_matches_parse() {
    let input = "[p | one]";
    let page = Page::new(input);
    assert_eq!("<p>one</p>\n", page.content);
    assert_eq!(0, page.meta.len());
}

#[test]
fn transducer_keeps_multibyte_content_whole() {
    assert_eq!(
        "<p>h\u{00E9}llo \u{2603}</p>".to_string(),
        parse_granite("[p | h\u{00E9}llo \u{2603}]")
    );
}

#[test]
fn quoted_separator_block_closes_at_the_bracket() {
    // the block is valid only through the quoted separator, so its head
    // runs into the closing bracket, which becomes the closing tag alone
    assert_eq!("<a\"|\" </a>".to_string(), parse_granite("[a \"|\" ]"));
}
