use mtoc_parser::normalize::{slugify, slugify_lowered, titleize};

fn check(raw: &str, title: &str, slug: &str) {
    assert_eq!(title, titleize(raw), "titleize({:?})", raw);
    assert_eq!(slug, slugify(raw), "slugify({:?})", raw);
}

#[test]
fn ampersand_is_dropped_from_slug_only() {
    assert_eq!("foo--bar", slugify("Foo & Bar"));
    assert_eq!("Foo & Bar", titleize("Foo & Bar"));
}

#[test]
fn umlauts() {
    check("Frachtaufträge", "Frachtaufträge", "frachtaufträge");
}

#[test]
fn c_sharp() {
    check("C#", "C#", "c");
}

#[test]
fn lowercase_diacritics() {
    check("Okay Åô Then", "Okay Åô Then", "okay-åô-then");
}

#[test]
fn strip_slashes_and_backticks() {
    check("Some/Article", "Some/Article", "somearticle");
    check("Some`Article`", "Some`Article`", "somearticle");
}

#[test]
fn strip_cjk_punctuation_in_slugs() {
    check(
        "存在，【中文】；《标点》、符号！的标题？",
        "存在，【中文】；《标点》、符号！的标题？",
        "存在中文标点符号的标题",
    );
}

#[test]
fn cjk_characters_are_kept() {
    check("中文", "中文", "中文");
    check("かんじ", "かんじ", "かんじ");
    check("한자", "한자", "한자");
}

#[test]
fn strip_html_tags() {
    check("<test>Foo", "Foo", "foo");
    check("<test> Foo", "Foo", "-foo");
    check("<test> Foo ", "Foo", "-foo");
    check("<div> Foo </div>", "Foo", "-foo-");
    check(" Foo <test>", "Foo", "foo-");
}

#[test]
fn spaces_collapse_in_titles_and_dash_in_slugs() {
    check("Some    Article", "Some Article", "some----article");
    check("Foo - bar", "Foo - bar", "foo---bar");
    check("Foo- - -bar", "Foo- - -bar", "foo-----bar");
    check("Foo---bar", "Foo---bar", "foo---bar");
    check("Foo- -   -bar", "Foo- - -bar", "foo-------bar");
}

#[test]
fn punctuation_is_dropped_from_slugs() {
    check("MysTrInghEre", "MysTrInghEre", "mystringhere");
    check("Header (something)", "Header (something)", "header-something");
    check("Header [something]", "Header [something]", "header-something");
    check("Header {something}", "Header {something}", "header-something");
    check("Header \"something\"", "Header \"something\"", "header-something");
    check("Header 'something'", "Header 'something'", "header-something");
    check("Header .something.", "Header .something.", "header-something");
    check("Header ~something~", "Header ~something~", "header-something");
    check("Header %something%", "Header %something%", "header-something");
    check("Header ^something^", "Header ^something^", "header-something");
    check("Header *something*", "Header *something*", "header-something");
    check("Header @something@", "Header @something@", "header-something");
    check("Header |something|", "Header |something|", "header-something");
}

#[test]
fn leading_spaces_and_code() {
    check("      Heading 1", "Heading 1", "heading-1");
    check("Heading ! 0", "Heading ! 0", "heading--0");
    check("Heading &and&and& 3", "Heading &and&and& 3", "heading-andand-3");
    check(
        "`get_context(key[, operator][, operand][, match_all])`",
        "`get_context(key[, operator][, operand][, match_all])`",
        "get_contextkey-operator-operand-match_all",
    );
}

#[test]
fn emphasis_markers_inside_words_stay() {
    check("_x test 1", "_x test 1", "_x-test-1");
}

#[test]
fn empty_and_all_stripped_input() {
    check("", "", "");
    check("?!.", "?!.", "");
    check(" \t\n ", "", "");
}

#[test]
fn newlines_collapse_in_titles() {
    assert_eq!("a b", titleize("a\n\n  b"));
    assert_eq!("a", titleize("<br/>a"));
    assert_eq!("<> a", titleize("<> a"));
}

#[test]
fn lowered_text_slug_skips_lowercasing() {
    assert_eq!("Foo--Bar", slugify_lowered(" Foo & Bar "));
    assert_eq!("foo--bar", slugify_lowered("foo & bar"));
}
