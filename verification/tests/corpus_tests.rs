use bm25_search::corpus::{parse_documents, parse_marked, Document};

fn document(id: &str, text: &str) -> Document {
    Document { id: id.to_string(), text: text.to_string() }
}

#[test]
fn parse_two_records() {
    let text = "#url u1\n#content cat dog\n\n#url u2\n#content dog dog dog\n\n";
    assert_eq!(
        parse_documents(text),
        vec![document("u1", "cat dog"), document("u2", "dog dog dog")]
    );
}

#[test]
fn parse_empty_text_has_no_documents() {
    assert_eq!(parse_documents(""), Vec::<Document>::new());
    assert_eq!(parse_documents("\n\n\n"), Vec::<Document>::new());
}

#[test]
fn parse_last_record_needs_no_blank_line() {
    assert_eq!(
        parse_documents("#url u1\n#content one\n\n#url u2\n#content two"),
        vec![document("u1", "one"), document("u2", "two")]
    );
    assert_eq!(parse_documents("#url u\n#content c\n"), vec![document("u", "c")]);
}

#[test]
fn parse_values_are_trimmed() {
    assert_eq!(
        parse_documents("#url \t http://a.example/x  \n#content   two  words \t\n"),
        vec![document("http://a.example/x", "two  words")]
    );
}

#[test]
fn parse_content_may_come_first() {
    assert_eq!(parse_documents("#content c\n#url u\n\n"), vec![document("u", "c")]);
}

#[test]
fn parse_later_value_replaces_earlier() {
    assert_eq!(
        parse_documents("#url first\n#url second\n#content a\n#content b\n\n"),
        vec![document("second", "b")]
    );
}

#[test]
fn parse_record_without_content_is_dropped() {
    assert_eq!(
        parse_documents("#url lonely\n\n#url u2\n#content c2\n\n"),
        vec![document("u2", "c2")]
    );
}

#[test]
fn parse_record_without_url_is_dropped() {
    assert_eq!(
        parse_documents("#content lonely\n\n#url u2\n#content c2\n\n"),
        vec![document("u2", "c2")]
    );
}

#[test]
fn parse_blank_line_ends_an_unfinished_record() {
    // The identifier before the blank line does not carry over.
    assert_eq!(parse_documents("#url u1\n\n#content c\n\n"), Vec::<Document>::new());
}

#[test]
fn parse_empty_values_do_not_count() {
    assert_eq!(parse_documents("#url  \n#content c\n\n"), Vec::<Document>::new());
    assert_eq!(parse_documents("#url u\n#content \t \n\n"), Vec::<Document>::new());
}

#[test]
fn parse_tag_needs_white_space_behind_it() {
    assert_eq!(parse_documents("#urlx u\n#content c\n\n"), Vec::<Document>::new());
    assert_eq!(parse_documents("#url\n#content c\n\n"), Vec::<Document>::new());
    assert_eq!(parse_documents("#url u\n#contents c\n\n"), Vec::<Document>::new());
    assert_eq!(parse_documents("#url u\n#content\n\n"), Vec::<Document>::new());
}

#[test]
fn parse_tag_must_open_the_line() {
    assert_eq!(parse_documents(" #url u\n#content c\n\n"), Vec::<Document>::new());
}

#[test]
fn parse_other_lines_are_ignored() {
    assert_eq!(
        parse_documents("# a remark\n#url u\nnoise\n#content c\n#title t\n\n"),
        vec![document("u", "c")]
    );
}

#[test]
fn parse_line_of_white_space_is_blank() {
    assert_eq!(
        parse_documents("#url u1\n#content c1\n \t \n#url u2\n#content c2\n"),
        vec![document("u1", "c1"), document("u2", "c2")]
    );
}

#[test]
fn parse_without_blank_line_is_one_record() {
    assert_eq!(
        parse_documents("#url u1\n#content c1\n#url u2\n#content c2\n"),
        vec![document("u2", "c2")]
    );
}

#[test]
fn parse_carriage_returns_are_white_space() {
    assert_eq!(
        parse_documents("#url u1\r\n#content cat dog\r\n\r\n#url u2\r\n#content dog\r\n"),
        vec![document("u1", "cat dog"), document("u2", "dog")]
    );
}

#[test]
fn parse_keeps_characters_beyond_ascii() {
    assert_eq!(
        parse_documents("#url\u{a0}caf\u{e9}\n#content \u{fc}ber \u{2003}\n"),
        vec![document("caf\u{e9}", "\u{fc}ber")]
    );
}

#[test]
fn parse_marked_goes_by_the_marks_alone() {
    // Here `_` is marked as white space and the blank is not.
    let text = "#url_u 1_\n#content_c\n";
    let marked: Vec<(char, bool)> = text.chars().map(|c| (c, c == '_')).collect();
    assert_eq!(parse_marked(&marked), vec![document("u 1", "c")]);
}

#[test]
fn parse_marked_empty() {
    assert_eq!(parse_marked(&Vec::new()), Vec::<Document>::new());
}
