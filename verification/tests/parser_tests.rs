use pillar::parser::{Token, RUNE_EMPTY};

#[test]
fn parser_test_parse_basic() {
    let content = String::from("the {quick {brown}} fox {jumps}");
    let parsed = Token::new(&content);

    assert_eq!(2, parsed.tokens.len());
    assert_eq!(1, parsed.tokens[0].tokens.len());
}

#[test]
fn test_parse_unicode() {
    let content = String::from(
        "\u{1F69A}\u{1F717}\u{1F987} {\u{1FA9F}\u{1F5D0}\u{1F492}\u{1F41E}\u{1F389} {\u{1F933}\u{1F8B0}\u{1F7BF}\u{1F908}\u{1F3BD}\u{1F5A5}\u{1F301}}} \u{1F316}\u{1FD5F}\u{1F956} {\u{1F9E3}\u{1F45C}\u{1FBF9}\u{1F5BA}\u{1F317}\u{1FBF6}\u{1FDB0}}",
    );
    let parsed = Token::new(&content);

    assert_eq!(2, parsed.tokens.len());
    assert_eq!("\u{1F69A}\u{1F717}\u{1F987} {} \u{1F316}\u{1FD5F}\u{1F956} {}", parsed.contents);
    assert_eq!("\u{1FA9F}\u{1F5D0}\u{1F492}\u{1F41E}\u{1F389} {}", parsed.tokens[0].contents);
    assert_eq!(
        "\u{1F9E3}\u{1F45C}\u{1FBF9}\u{1F5BA}\u{1F317}\u{1FBF6}\u{1FDB0}",
        parsed.tokens[1].contents
    );
}

#[test]
fn test_display() {
    let content = String::from("the *{quick @{brown}} fox ={jumps}");
    let parsed = Token::new(&content);
    let display = parsed.render();

    assert_eq!("the <i>quick <a>brown</a></i> fox <pre>jumps</pre>", display);
}

#[test]
fn test_display_empty() {
    let content = String::from("the {quick {brown}} fox {jumps}");
    let parsed = Token::new(&content);
    let display = parsed.render();

    assert_eq!("the <>quick <>brown</></> fox <>jumps</>", display);
}

#[test]
fn test_display_null() {
    let content = format!("the {}{{quick {{brown}}}} fox {{jumps}}", RUNE_EMPTY as char);
    let parsed = Token::new(&content);
    let display = parsed.render();

    assert_eq!("the quick <>brown</> fox <>jumps</>", display);
}

#[test]
fn bench_lt_10000ns() {
    let content = String::from("the {quick {brown}} fox {jumps}");
    let iters: u128 = 100000;
    let start = std::time::Instant::now();
    let mut i: u128 = 0;
    while i < iters {
        Token::new(&content);
        i += 1;
    }
    let time = start.elapsed().as_nanos() / iters;
    let error: u128 = 0;

    if time > 10000 {
        panic!("time was {}\u{00B1}{} ns", time, error);
    }

    println!("parsed {} chars in {}\u{00B1}{} ns", content.len(), time, error);
}

#[test]
fn render_leaf_with_rune() {
    let parsed = Token::new(".{alone}");
    let display = parsed.render();
    assert_eq!("<p>alone</p>", display);
}

#[test]
fn render_every_rune_element() {
    let cases = [
        ('.', "p"),
        ('~', "ul"),
        ('-', "li"),
        ('!', "img"),
        ('@', "a"),
        ('#', "h1"),
        ('&', "video"),
        ('*', "i"),
        ('+', "summary"),
        ('=', "pre"),
        ('>', "blockquote"),
    ];
    for (rune, elem) in cases {
        let content = format!("{}{{x}}", rune);
        let parsed = Token::new(&content);
        let display = parsed.render();
        assert_eq!(format!("<{}>x</{}>", elem, elem), display);
    }
}
