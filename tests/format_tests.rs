use mtoc_parser::{headers, Format, Formatter, Header};
use std::str;

const MD: &str =
    "# Title\n## Introduction\n## Body\n### Detail\n#### Minutiae\n### Detail\n## Conclusion";

fn render(formatter: Formatter, md: &str) -> Vec<u8> {
    let mut out = Vec::new();
    formatter.fmt(&mut out, headers(md).into_vec());
    out
}

#[test]
fn alternating_bullets() {
    let out = render(Formatter::AlternatingBullets, MD);
    let mut lines = str::from_utf8(&out).unwrap().lines();

    assert_eq!(Some("- [Title](#title)"), lines.next());
    assert_eq!(Some("  * [Introduction](#introduction)"), lines.next());
    assert_eq!(Some("  * [Body](#body)"), lines.next());
    assert_eq!(Some("    + [Detail](#detail)"), lines.next());
    assert_eq!(Some("      - [Minutiae](#minutiae)"), lines.next());
    assert_eq!(Some("    + [Detail](#detail-1)"), lines.next());
    assert_eq!(Some("  * [Conclusion](#conclusion)"), lines.next());
    assert_eq!(None, lines.next());
}

#[test]
fn dash_bullets() {
    let out = render(Formatter::DashBullets, MD);
    let mut lines = str::from_utf8(&out).unwrap().lines();

    assert_eq!(Some("- [Title](#title)"), lines.next());
    assert_eq!(Some("  - [Introduction](#introduction)"), lines.next());
    assert_eq!(Some("  - [Body](#body)"), lines.next());
    assert_eq!(Some("    - [Detail](#detail)"), lines.next());
    assert_eq!(Some("      - [Minutiae](#minutiae)"), lines.next());
    assert_eq!(Some("    - [Detail](#detail-1)"), lines.next());
    assert_eq!(Some("  - [Conclusion](#conclusion)"), lines.next());
    assert_eq!(None, lines.next());
}

#[test]
fn plus_bullets() {
    let out = render(Formatter::PlusBullets, MD);
    let mut lines = str::from_utf8(&out).unwrap().lines();

    assert_eq!(Some("+ [Title](#title)"), lines.next());
    assert_eq!(Some("  + [Introduction](#introduction)"), lines.next());
    assert_eq!(Some("  + [Body](#body)"), lines.next());
    assert_eq!(Some("    + [Detail](#detail)"), lines.next());
    assert_eq!(Some("      + [Minutiae](#minutiae)"), lines.next());
    assert_eq!(Some("    + [Detail](#detail-1)"), lines.next());
    assert_eq!(Some("  + [Conclusion](#conclusion)"), lines.next());
    assert_eq!(None, lines.next());
}

#[test]
fn asterisk_bullets() {
    let out = render(Formatter::AsteriskBullets, MD);
    let mut lines = str::from_utf8(&out).unwrap().lines();

    assert_eq!(Some("* [Title](#title)"), lines.next());
    assert_eq!(Some("  * [Introduction](#introduction)"), lines.next());
    assert_eq!(Some("  * [Body](#body)"), lines.next());
    assert_eq!(Some("    * [Detail](#detail)"), lines.next());
    assert_eq!(Some("      * [Minutiae](#minutiae)"), lines.next());
    assert_eq!(Some("    * [Detail](#detail-1)"), lines.next());
    assert_eq!(Some("  * [Conclusion](#conclusion)"), lines.next());
    assert_eq!(None, lines.next());
}

#[test]
fn numbers() {
    let out = render(Formatter::Numbers, MD);
    let mut lines = str::from_utf8(&out).unwrap().lines();

    assert_eq!(Some("1. [Title](#title)"), lines.next());
    assert_eq!(Some("   1. [Introduction](#introduction)"), lines.next());
    assert_eq!(Some("   1. [Body](#body)"), lines.next());
    assert_eq!(Some("      1. [Detail](#detail)"), lines.next());
    assert_eq!(Some("         1. [Minutiae](#minutiae)"), lines.next());
    assert_eq!(Some("      1. [Detail](#detail-1)"), lines.next());
    assert_eq!(Some("   1. [Conclusion](#conclusion)"), lines.next());
    assert_eq!(None, lines.next());
}

#[test]
fn custom() {
    let out = render(Formatter::Custom("wat."), MD);
    let mut lines = str::from_utf8(&out).unwrap().lines();

    assert_eq!(Some("wat. [Title](#title)"), lines.next());
    assert_eq!(
        Some("     wat. [Introduction](#introduction)"),
        lines.next()
    );
    assert_eq!(Some("     wat. [Body](#body)"), lines.next());
    assert_eq!(Some("          wat. [Detail](#detail)"), lines.next());
    assert_eq!(
        Some("               wat. [Minutiae](#minutiae)"),
        lines.next()
    );
    assert_eq!(Some("          wat. [Detail](#detail-1)"), lines.next());
    assert_eq!(Some("     wat. [Conclusion](#conclusion)"), lines.next());
    assert_eq!(None, lines.next());
}

#[test]
fn alternating_example_over_all_headings() {
    let md = "# Title\n## Introduction\n## Body\n### Detail\n### Detail\n## Conclusion";
    let out = render(Formatter::AlternatingBullets, md);
    let lines: Vec<&str> = str::from_utf8(&out).unwrap().lines().collect();
    assert_eq!(6, lines.len());
    assert_eq!("- [Title](#title)", lines[0]);
    assert_eq!("    + [Detail](#detail)", lines[3]);
    assert_eq!("    + [Detail](#detail-1)", lines[4]);
}

#[test]
fn multibyte_marker_indents_by_characters() {
    let hs = vec![
        Header::new(1, "A".to_string(), "#a".to_string()),
        Header::new(3, "B".to_string(), "#b".to_string()),
    ];
    let mut out = Vec::new();
    Formatter::Custom("\u{2605}").fmt(&mut out, hs);
    assert_eq!("\u{2605} [A](#a)\n    \u{2605} [B](#b)\n", str::from_utf8(&out).unwrap());
}

#[test]
fn alternating_cycles_after_three_levels() {
    let hs = vec![
        Header::new(4, "Four".to_string(), "#four".to_string()),
        Header::new(6, "Six".to_string(), "#six".to_string()),
    ];
    let out = Formatter::default().render(&hs);
    assert_eq!("      - [Four](#four)\n          + [Six](#six)\n", out);
}

#[test]
fn no_headings_render_nothing() {
    let mut out = b"kept".to_vec();
    Formatter::Numbers.fmt(&mut out, Vec::new());
    assert_eq!(b"kept".to_vec(), out);
}

#[test]
fn custom_star_marker() {
    let out = render(Formatter::Custom("\u{2605}"), "# Level 1\n## Level 2\n### Level 3");
    let mut lines = str::from_utf8(&out).unwrap().lines();

    assert_eq!(Some("\u{2605} [Level 1](#level-1)"), lines.next());
    assert_eq!(Some("  \u{2605} [Level 2](#level-2)"), lines.next());
    assert_eq!(Some("    \u{2605} [Level 3](#level-3)"), lines.next());
    assert_eq!(None, lines.next());
}
