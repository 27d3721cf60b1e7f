use mtoc_parser::{headers, Formatter, WriterBuilder};
use std::str;

const EXPECTED_1: &str = "<!-- toc -->\n\n- [Intro](#intro)\n- [Body](#body)\n  * [Detail](#detail)\n- [Conclusion](#conclusion)\n\n<!-- tocstop -->\n\n# Title\n## Intro\n## Body\n### Detail\n## Conclusion\n";

const DOC: &str = "<!-- toc -->\n\n# Title\n## Intro\n## Body\n### Detail\n## Conclusion\n";

fn written(out: &[u8]) -> &str {
    str::from_utf8(out).unwrap()
}

#[test]
fn with_begin_marker() {
    let mut out = Vec::new();
    WriterBuilder::new(DOC).write(&mut out);

    assert_eq!(EXPECTED_1, written(&out));
}

#[test]
fn with_both_markers_squashed() {
    let md = "<!-- toc -->\n<!-- tocstop -->\n\n# Title\n## Intro\n## Body\n### Detail\n## Conclusion\n";

    let mut out = Vec::new();
    WriterBuilder::new(md).write(&mut out);

    assert_eq!(EXPECTED_1, written(&out));
}

#[test]
fn with_both_markers_vertical_space() {
    let md = "<!-- toc -->\n\n\n\n\n\n<!-- tocstop -->\n\n# Title\n## Intro\n## Body\n### Detail\n## Conclusion\n";

    let mut out = Vec::new();
    WriterBuilder::new(md).write(&mut out);

    assert_eq!(EXPECTED_1, written(&out));
}

#[test]
fn with_outdated_toc() {
    let md = "<!-- toc -->\n\n- [Old](#old)\n\n<!-- tocstop -->\n\n# Title\n## Intro\n## Body\n### Detail\n## Conclusion\n";

    let mut out = Vec::new();
    WriterBuilder::new(md).write(&mut out);

    assert_eq!(EXPECTED_1, written(&out));
}

#[test]
fn with_identical_toc() {
    let mut out = Vec::new();
    WriterBuilder::new(EXPECTED_1).write(&mut out);

    assert_eq!(EXPECTED_1, written(&out));
}

#[test]
fn with_custom_begin_marker() {
    let md = "<!-- muzak -->\n\n# Title\n## Intro\n";

    let mut out = Vec::new();
    WriterBuilder::new(md).begin_marker("<!-- muzak -->").write(&mut out);

    assert_eq!(
        "<!-- muzak -->\n\n- [Intro](#intro)\n\n<!-- tocstop -->\n\n# Title\n## Intro\n",
        written(&out)
    );
}

#[test]
fn with_custom_begin_marker_and_default_end() {
    let md = "<!-- muzak -->\n\n- [Old](#old)\n\n<!-- tocstop -->\n\n# Title\n## Intro\n";

    let mut out = Vec::new();
    WriterBuilder::new(md).begin_marker("<!-- muzak -->").write(&mut out);

    assert_eq!(
        "<!-- muzak -->\n\n- [Intro](#intro)\n\n<!-- tocstop -->\n\n# Title\n## Intro\n",
        written(&out)
    );
}

#[test]
fn with_custom_end_marker_and_only_default_begin() {
    let md = "<!-- toc -->\n\n# Title\n## Intro\n";

    let mut out = Vec::new();
    WriterBuilder::new(md).end_marker("<!-- stahwp -->").write(&mut out);

    assert_eq!(
        "<!-- toc -->\n\n- [Intro](#intro)\n\n<!-- stahwp -->\n\n# Title\n## Intro\n",
        written(&out)
    );
}

#[test]
fn with_custom_end_marker() {
    let md = "<!-- toc -->\n\n- [Old](#old)\n\n<!-- stahwp -->\n\n# Title\n## Intro\n";

    let mut out = Vec::new();
    WriterBuilder::new(md).end_marker("<!-- stahwp -->").write(&mut out);

    assert_eq!(
        "<!-- toc -->\n\n- [Intro](#intro)\n\n<!-- stahwp -->\n\n# Title\n## Intro\n",
        written(&out)
    );
}

#[test]
fn with_custom_begin_and_end_markers_only_begin() {
    let md = "<!-- start -->\n\n# Title\n## Intro\n";

    let mut out = Vec::new();
    WriterBuilder::new(md)
        .begin_marker("<!-- start -->")
        .end_marker("<!-- stop -->")
        .write(&mut out);

    assert_eq!(
        "<!-- start -->\n\n- [Intro](#intro)\n\n<!-- stop -->\n\n# Title\n## Intro\n",
        written(&out)
    );
}

#[test]
fn with_custom_begin_and_end_markers() {
    let md = "<!-- start -->\n\n- [Old](#old)\n\n<!-- stop -->\n\n# Title\n## Intro\n";

    let mut out = Vec::new();
    WriterBuilder::new(md)
        .begin_marker("<!-- start -->")
        .end_marker("<!-- stop -->")
        .write(&mut out);

    assert_eq!(
        "<!-- start -->\n\n- [Intro](#intro)\n\n<!-- stop -->\n\n# Title\n## Intro\n",
        written(&out)
    );
}

#[test]
fn writes_document_without_markers() {
    let md = "# Title\n## Intro\n## Body\n### Detail\n## Conclusion\n";

    let mut out = Vec::new();
    WriterBuilder::new(md).write(&mut out);

    assert_eq!(md, written(&out));
}

#[test]
fn writes_document_without_begin_markers() {
    let md = "<!-- tocstop -->\n\n# Title\n## Intro\n## Body\n### Detail\n## Conclusion\n";

    let mut out = Vec::new();
    WriterBuilder::new(md).write(&mut out);

    assert_eq!(md, written(&out));
}

#[test]
fn skips_default_end_with_custom_end() {
    let md = "<!-- toc -->\n\n<!-- tocstop -->\n\n- [Old](#old)\n\n<!-- tocstop -->\n\n<!-- stop -->\n\n<!-- tocstop -->\n\n# Title\n## Intro\n";

    let mut out = Vec::new();
    WriterBuilder::new(md).end_marker("<!-- stop -->").write(&mut out);

    assert_eq!(
        "<!-- toc -->\n\n- [Intro](#intro)\n\n<!-- stop -->\n\n<!-- tocstop -->\n\n# Title\n## Intro\n",
        written(&out)
    );
}

#[test]
fn only_updates_first_toc_block() {
    let md = "<!-- toc -->\n\n<!-- tocstop -->\n\n- [Old](#old)\n\n<!-- toc -->\n\nwat\n\n<!-- tocstop -->\n\n# Title\n## Intro\n";

    let mut out = Vec::new();
    WriterBuilder::new(md).write(&mut out);

    assert_eq!(
        "<!-- toc -->\n\n- [Intro](#intro)\n\n<!-- tocstop -->\n\n- [Old](#old)\n\n<!-- toc -->\n\nwat\n\n<!-- tocstop -->\n\n# Title\n## Intro\n",
        written(&out)
    );
}

#[test]
fn numbered() {
    let mut out = Vec::new();
    WriterBuilder::new(DOC)
        .formatter(Formatter::Numbers)
        .write(&mut out);

    assert_eq!(
        "<!-- toc -->\n\n1. [Intro](#intro)\n1. [Body](#body)\n   1. [Detail](#detail)\n1. [Conclusion](#conclusion)\n\n<!-- tocstop -->\n\n# Title\n## Intro\n## Body\n### Detail\n## Conclusion\n",
        written(&out)
    );
}

#[test]
fn asterisks() {
    let mut out = Vec::new();
    WriterBuilder::new(DOC)
        .formatter(Formatter::AsteriskBullets)
        .write(&mut out);

    assert_eq!(
        "<!-- toc -->\n\n* [Intro](#intro)\n* [Body](#body)\n  * [Detail](#detail)\n* [Conclusion](#conclusion)\n\n<!-- tocstop -->\n\n# Title\n## Intro\n## Body\n### Detail\n## Conclusion\n",
        written(&out)
    );
}

const ALL_HEADERS: &str = "<!-- toc -->\n\n- [Title](#title)\n  * [Intro](#intro)\n  * [Body](#body)\n    + [Detail](#detail)\n  * [Conclusion](#conclusion)\n\n<!-- tocstop -->\n\n# Title\n## Intro\n## Body\n### Detail\n## Conclusion\n";

#[test]
fn with_all_headers() {
    let mut out = Vec::new();
    WriterBuilder::new(DOC)
        .headers(headers(DOC).into_vec())
        .write(&mut out);

    assert_eq!(ALL_HEADERS, written(&out));
}

#[test]
fn only_level_two_headers() {
    let mut out = Vec::new();
    WriterBuilder::new(DOC)
        .headers(
            headers(DOC)
                .into_vec()
                .into_iter()
                .filter(|h| h.level() == 2)
                .map(|h| h.promote())
                .collect(),
        )
        .write(&mut out);

    assert_eq!(
        "<!-- toc -->\n\n- [Intro](#intro)\n- [Body](#body)\n- [Conclusion](#conclusion)\n\n<!-- tocstop -->\n\n# Title\n## Intro\n## Body\n### Detail\n## Conclusion\n",
        written(&out)
    );
}

#[test]
fn repopulate_headers() {
    let mut out = Vec::new();
    WriterBuilder::new(DOC)
        .headers(headers(DOC).into_vec())
        .write(&mut out)
        .headers(headers(DOC).into_vec())
        .write(&mut out);

    assert_eq!(format!("{}{}", ALL_HEADERS, ALL_HEADERS), written(&out));
}

#[test]
fn skip_title_promote_the_rest() {
    let md = "<!-- toc -->\n\n# Title\n## Intro\nHello.\n";

    let mut out = Vec::new();
    WriterBuilder::new(md).write(&mut out);

    assert_eq!(
        "<!-- toc -->\n\n- [Intro](#intro)\n\n<!-- tocstop -->\n\n# Title\n## Intro\nHello.\n",
        written(&out)
    );
}

#[test]
fn no_begin_marker_copies_through_under_every_format() {
    let md = "# Title\n## Intro\n\n<!-- tocstop -->\n\ntext\n";
    let formats = vec![
        Formatter::AlternatingBullets,
        Formatter::DashBullets,
        Formatter::PlusBullets,
        Formatter::AsteriskBullets,
        Formatter::Numbers,
        Formatter::Custom("~"),
    ];
    for f in formats {
        let mut out = Vec::new();
        WriterBuilder::new(md).formatter(f).write(&mut out);
        assert_eq!(md, written(&out));
    }
}

#[test]
fn rerun_on_output_is_identical() {
    let md = "<!-- toc -->\n- [Stale](#stale)\n<!-- tocstop -->\n\n# Title\n## Intro\n### Deeper\n## Outro\n";
    let mut first = Vec::new();
    WriterBuilder::new(md).write(&mut first);
    let once = written(&first).to_string();
    let mut second = Vec::new();
    WriterBuilder::new(&once).write(&mut second);
    assert_eq!(once, written(&second));
}

#[test]
fn crlf_after_begin_marker() {
    let md = "<!-- toc -->\r\n\r\n# Title\r\n## Intro\r\n";
    let mut out = Vec::new();
    WriterBuilder::new(md).write(&mut out);
    assert_eq!(
        "<!-- toc -->\r\n\n- [Intro](#intro)\n\n<!-- tocstop -->\n\r\n# Title\r\n## Intro\r\n",
        written(&out)
    );
}

#[test]
fn marker_in_code_block_is_ignored() {
    let md = "```\n<!-- toc -->\n```\n\n# Title\n## Intro\n";
    let mut out = Vec::new();
    WriterBuilder::new(md).write(&mut out);
    assert_eq!(md, written(&out));
}

#[test]
fn marker_not_ending_its_line_is_not_taken() {
    let md = "<!-- toc --> trailing\n\n# Title\n## Intro\n";
    let mut out = Vec::new();
    WriterBuilder::new(md).write(&mut out);
    assert_eq!(md, written(&out));
}

#[test]
fn content_around_the_block_is_kept() {
    let md = "Intro text.\n\n<!-- toc -->\nold\n<!-- tocstop -->\ntail text\n\n# Title\n## Part\n";
    let mut out = Vec::new();
    WriterBuilder::new(md).write(&mut out);
    let got = written(&out);
    assert!(got.starts_with("Intro text.\n\n<!-- toc -->\n"));
    assert!(got.ends_with("<!-- tocstop -->\ntail text\n\n# Title\n## Part\n"));
}
