use pillar::granite::Metadata;
use pillar::template::{compose, plugin_markers, strip_first_line, template_filename};

#[test]
fn template_filename_defaults() {
    let meta: Vec<Metadata> = vec![];
    assert_eq!("default.html", template_filename(&meta));
}

#[test]
fn template_filename_takes_last_template_pair() {
    let meta = vec![
        Metadata { name: String::from("title"), value: String::from("T") },
        Metadata { name: String::from("template"), value: String::from("blog") },
        Metadata { name: String::from("template"), value: String::from("post") },
    ];
    assert_eq!("post.html", template_filename(&meta));
}

#[test]
fn compose_replaces_marker_with_content() {
    let template = "<body>\n{{content}}\n</body>";
    assert_eq!("<body>\n<p>hi</p>\n</body>", compose(template, "<p>hi</p>"));
}

#[test]
fn compose_takes_indent_from_marker_line() {
    let template = "<body>\n  {{content}}\n</body>";
    assert_eq!("<body>\n<p>hi</p>\n</body>", compose(template, "<p>hi</p>"));
}

#[test]
fn compose_without_marker_changes_nothing() {
    let template = "<body>static</body>";
    assert_eq!(template.to_string(), compose(template, "<p>hi</p>"));
}

#[test]
fn plugin_markers_lists_names_in_order() {
    let out = plugin_markers("a {{first}} b {{second}} c");
    assert_eq!(2, out.len());
    assert_eq!("first", out[0]);
    assert_eq!("second", out[1]);
}

#[test]
fn plugin_markers_skips_malformed_braces() {
    let out = plugin_markers("{{}} {{a}b}} {{good}}");
    assert_eq!(1, out.len());
    assert_eq!("good", out[0]);
}

#[test]
fn strip_first_line_drops_the_path_prefix() {
    assert_eq!("body\nmore", strip_first_line("path/to/file\nbody\nmore"));
}

#[test]
fn strip_first_line_without_break_leaves_nothing() {
    assert_eq!("", strip_first_line("only one line"));
}

#[test]
fn compose_makes_one_pass_when_content_rebuilds_the_marker() {
    // the content ends with a marker prefix and is longer than the
    // marker, so rescanning could never finish; one pass is made
    let template = "a{{content}}t}}b";
    assert_eq!(
        "axxxxx{{content}}b".to_string(),
        compose(template, "xxxxx{{conten")
    );
}

#[test]
fn compose_rescans_short_content() {
    // empty content is shorter than the marker, so splices that rebuild
    // the marker are replaced again
    let template = "x{{cont{{content}}ent}}y";
    assert_eq!("xy".to_string(), compose(template, ""));
}
