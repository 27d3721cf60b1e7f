use mtoc_parser::{headers, Header};

fn header() -> Header {
    Header::new(
        3,
        "A Title to Remember".to_string(),
        "#a-title-to-remember".to_string(),
    )
}

fn titles(md: &str) -> Vec<String> {
    headers(md).into_vec().into_iter().map(Header::into_title).collect()
}

fn anchors(md: &str) -> Vec<String> {
    headers(md).into_vec().into_iter().map(Header::into_anchor).collect()
}

#[test]
fn returned_in_order() {
    let md = "# Alpha\n# Bravo\n# Charlie\n# Delta\n# Echo\n# Foxtrot";
    let mut iter = headers(md);

    assert_eq!(Some("Alpha".to_string()), iter.next().map(Header::into_title));
    assert_eq!(Some("Bravo".to_string()), iter.next().map(Header::into_title));
    assert_eq!(Some("Charlie".to_string()), iter.next().map(Header::into_title));
    assert_eq!(Some("Delta".to_string()), iter.next().map(Header::into_title));
    assert_eq!(Some("Echo".to_string()), iter.next().map(Header::into_title));
    assert_eq!(Some("Foxtrot".to_string()), iter.next().map(Header::into_title));
    assert_eq!(None, iter.next());
}

#[test]
fn unique_slugs_are_unique() {
    let md = "# Alpha\n# Bravo\n# Charlie\n# Delta\n# Echo\n# Foxtrot";
    let mut iter = headers(md);

    assert_eq!(Some("#alpha".to_string()), iter.next().map(Header::into_anchor));
    assert_eq!(Some("#bravo".to_string()), iter.next().map(Header::into_anchor));
    assert_eq!(Some("#charlie".to_string()), iter.next().map(Header::into_anchor));
    assert_eq!(Some("#delta".to_string()), iter.next().map(Header::into_anchor));
    assert_eq!(Some("#echo".to_string()), iter.next().map(Header::into_anchor));
    assert_eq!(Some("#foxtrot".to_string()), iter.next().map(Header::into_anchor));
    assert_eq!(None, iter.next());
}

#[test]
fn duplicate_slugs_are_uniqued() {
    let md = "# Alpha\n# Bravo\n## Alpha\n# Delta\n# Alpha\n###### Alpha";
    let mut iter = headers(md);

    assert_eq!(Some("#alpha".to_string()), iter.next().map(Header::into_anchor));
    assert_eq!(Some("#bravo".to_string()), iter.next().map(Header::into_anchor));
    assert_eq!(Some("#alpha-1".to_string()), iter.next().map(Header::into_anchor));
    assert_eq!(Some("#delta".to_string()), iter.next().map(Header::into_anchor));
    assert_eq!(Some("#alpha-2".to_string()), iter.next().map(Header::into_anchor));
    assert_eq!(Some("#alpha-3".to_string()), iter.next().map(Header::into_anchor));
    assert_eq!(None, iter.next());
}

#[test]
fn level() {
    assert_eq!(3, header().level());
}

#[test]
fn title() {
    assert_eq!("A Title to Remember", header().title());
}

#[test]
fn anchor() {
    assert_eq!("#a-title-to-remember", header().anchor());
}

#[test]
fn into_title() {
    assert_eq!("A Title to Remember", header().into_title());
}

#[test]
fn into_anchor() {
    assert_eq!("#a-title-to-remember", header().into_anchor());
}

#[test]
fn promote() {
    assert_eq!(2, header().promote().level());
}

#[test]
fn promote_floor_is_one() {
    assert_eq!(1, header().promote().promote().promote().promote().level());
}

#[test]
fn demote() {
    assert_eq!(4, header().demote().level());
}

#[test]
fn demote_ceiling_is_six() {
    assert_eq!(6, header().demote().demote().demote().demote().level());
}

#[test]
fn display() {
    assert_eq!(
        "[A Title to Remember](#a-title-to-remember)",
        header().to_string()
    )
}

#[test]
fn promote_keeps_level_one() {
    let h = Header::new(1, "Top".to_string(), "#top".to_string());
    assert_eq!(1, h.promote().level());
}

#[test]
fn demote_keeps_level_six() {
    let h = Header::new(6, "Deep".to_string(), "#deep".to_string());
    assert_eq!(6, h.demote().level());
}

#[test]
fn promote_keeps_title_and_anchor() {
    let h = header().promote();
    assert_eq!("A Title to Remember", h.title());
    assert_eq!("#a-title-to-remember", h.anchor());
}

#[test]
fn levels_follow_atx_markers() {
    let md = "# One\n## Two\n### Three\n#### Four\n##### Five\n###### Six\n";
    let levels: Vec<usize> = headers(md).into_vec().iter().map(|h| h.level()).collect();
    assert_eq!(vec![1, 2, 3, 4, 5, 6], levels);
}

#[test]
fn headings_in_code_are_not_headings() {
    let md = "# Real\n\n```\n# Not a heading\n```\n\n## Also real\n";
    assert_eq!(vec!["Real".to_string(), "Also real".to_string()], titles(md));
}

#[test]
fn empty_heading_has_empty_anchor() {
    let hs = headers("#\n").into_vec();
    assert_eq!(1, hs.len());
    assert_eq!("", hs[0].title());
    assert_eq!("#", hs[0].anchor());
}

#[test]
fn document_without_headings_yields_none() {
    assert!(headers("just some text\n\nand more\n").next().is_none());
    assert!(headers("").next().is_none());
}

#[test]
fn crlf_line_ends_are_trimmed() {
    let md = "# Title\r\n## Next\r\n";
    assert_eq!(vec!["Title".to_string(), "Next".to_string()], titles(md));
    assert_eq!(vec!["#title".to_string(), "#next".to_string()], anchors(md));
}

#[test]
fn kth_duplicate_gets_suffix_k_minus_one() {
    let md = "# Detail\n## Detail\n### Detail\n# Other\n## Detail\n";
    assert_eq!(
        vec!["#detail", "#detail-1", "#detail-2", "#other", "#detail-3"],
        anchors(md)
    );
}

#[test]
fn suffix_skips_taken_slugs() {
    let md = "# A\n# A-1\n# A\n";
    assert_eq!(vec!["#a", "#a-1", "#a-2"], anchors(md));
}

#[test]
fn titles_keep_punctuation_and_drop_tags() {
    let md = "# Foo & Bar\n## <em>Styled</em>   heading\n";
    assert_eq!(
        vec!["Foo & Bar".to_string(), "Styled heading".to_string()],
        titles(md)
    );
    assert_eq!(vec!["#foo--bar", "#styled---heading"], anchors(md));
}

#[test]
fn well_formed_document_has_no_parser_fault() {
    let mut iter = headers("# One\n## Two\n");
    assert!(!iter.parser_fault());
    while iter.next().is_some() {}
    assert!(!iter.parser_fault());
}
