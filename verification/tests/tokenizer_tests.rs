use tfidf_search::parser::parse;

fn toks(text: &str) -> Vec<String> {
    parse(&text.as_bytes().to_vec())
}

#[test]
fn mixed_categories_tokenize() {
    // an HTML tag, a word, a hyperlink, an e-mail, and a number
    let got = toks("<b>Hello</b> world http://x.y/z user@mail.com 1,234.5");
    assert_eq!(got, vec!["hello", "world", "xy", "user", "1234"]);
}

#[test]
fn query_tokenization_strips_punctuation() {
    let got = toks("FOO.Bar!");
    assert_eq!(got, vec!["foobar"]);
}

#[test]
fn query_tokenization_splits_words() {
    let got = toks("FOO Bar!");
    assert_eq!(got, vec!["foo", "bar"]);
}

#[test]
fn apostrophes_and_hyphens_bind_words() {
    assert_eq!(toks("we'll re-do"), vec!["well", "redo"]);
}

#[test]
fn embedded_tags_do_not_split_words() {
    assert_eq!(toks("<b>E</b>lephants"), vec!["elephants"]);
}

#[test]
fn comments_and_entities_are_dropped() {
    assert_eq!(toks("<!-- note --> &nbsp; ok"), vec!["ok"]);
}

#[test]
fn numbers_drop_commas_and_fractions() {
    assert_eq!(toks("9,000-111 20.07"), vec!["9000111", "20"]);
}

#[test]
fn leading_zero_numbers_are_skipped() {
    // a leading zero falls into no category and is skipped byte by byte
    assert_eq!(toks("01 a"), vec!["1", "a"]);
}

#[test]
fn https_and_www_links_normalize() {
    assert_eq!(toks("https://a.b.c/d www.site.org"), vec!["abc", "siteorg"]);
}

#[test]
fn empty_cleaned_tokens_are_dropped() {
    // the hyperlink cleans to nothing and must not be emitted
    let got = toks("www./ ok");
    assert_eq!(got, vec!["ok"]);
}

#[test]
fn non_ascii_bytes_split_words() {
    // a Latin-1 byte above 127 ends the word and is skipped
    let bytes = vec![b'c', 0xe9u8, b'x'];
    let got = parse(&bytes);
    assert_eq!(got, vec!["c", "x"]);
}

#[test]
fn empty_input_has_no_tokens() {
    assert_eq!(toks(""), Vec::<String>::new());
}
