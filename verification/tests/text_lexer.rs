use comma_check::model::PlainTextToken;

#[test]
fn classifies_words_commas_and_sentence_ends() {
    let toks = PlainTextToken::lexer("Kicsi, kutya tarka.");
    let kinds: Vec<PlainTextToken> = toks.iter().map(|t| t.kind).collect();
    let texts: Vec<&str> = toks.iter().map(|t| t.text.as_str()).collect();
    assert_eq!(
        kinds,
        vec![
            PlainTextToken::Text,
            PlainTextToken::Comma,
            PlainTextToken::Text,
            PlainTextToken::Text,
            PlainTextToken::EndOfSentence,
        ]
    );
    assert_eq!(texts, vec!["Kicsi", ",", "kutya", "tarka", "."]);
}

#[test]
fn semicolon_counts_as_comma() {
    let toks = PlainTextToken::lexer("a;b");
    assert_eq!(toks.len(), 3);
    assert_eq!(toks[1].kind, PlainTextToken::Comma);
    assert_eq!(toks[1].text, ";");
}

#[test]
fn number_swallows_decimal_comma() {
    let toks = PlainTextToken::lexer("ez 3,14 az");
    let kinds: Vec<PlainTextToken> = toks.iter().map(|t| t.kind).collect();
    assert_eq!(
        kinds,
        vec![PlainTextToken::Text, PlainTextToken::Number, PlainTextToken::Text]
    );
    assert_eq!(toks[1].text, "3,14");
}

#[test]
fn number_without_following_digit_leaves_the_comma() {
    let toks = PlainTextToken::lexer("12, ez");
    let kinds: Vec<PlainTextToken> = toks.iter().map(|t| t.kind).collect();
    assert_eq!(
        kinds,
        vec![PlainTextToken::Number, PlainTextToken::Comma, PlainTextToken::Text]
    );
    assert_eq!(toks[0].text, "12");
}

#[test]
fn newline_is_a_token_spaces_are_not() {
    let toks = PlainTextToken::lexer("egy  \t kettő\nhárom");
    let kinds: Vec<PlainTextToken> = toks.iter().map(|t| t.kind).collect();
    assert_eq!(
        kinds,
        vec![
            PlainTextToken::Text,
            PlainTextToken::Text,
            PlainTextToken::NewLine,
            PlainTextToken::Text,
        ]
    );
}

#[test]
fn brackets_form_one_token() {
    let toks = PlainTextToken::lexer("szó ((][ vége");
    let kinds: Vec<PlainTextToken> = toks.iter().map(|t| t.kind).collect();
    assert_eq!(
        kinds,
        vec![PlainTextToken::Text, PlainTextToken::Parentheses, PlainTextToken::Text]
    );
    assert_eq!(toks[1].text, "((][");
}

#[test]
fn unrecognized_characters_are_discarded() {
    let toks = PlainTextToken::lexer("a@&b");
    let texts: Vec<&str> = toks.iter().map(|t| t.text.as_str()).collect();
    assert_eq!(texts, vec!["a", "b"]);
}

#[test]
fn accented_letters_stay_in_one_word() {
    let toks = PlainTextToken::lexer("szükség!");
    assert_eq!(toks.len(), 2);
    assert_eq!(toks[0].kind, PlainTextToken::Text);
    assert_eq!(toks[0].text, "szükség");
    assert_eq!(toks[1].kind, PlainTextToken::EndOfSentence);
}

#[test]
fn empty_text_gives_no_tokens() {
    let toks = PlainTextToken::lexer("");
    assert_eq!(toks.len(), 0);
}
