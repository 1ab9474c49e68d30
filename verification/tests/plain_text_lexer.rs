use comma_check::lexer::PlainTextLexer;
use comma_check::model::Token;

#[test]
fn simple_tokenize() {
    let mut sut = PlainTextLexer::new();
    let v = sut.tokenize("Kicsi kutya tarka!");
    assert_eq!(v.len(), 3);
}

#[test]
fn detect_is_comma() {
    let mut sut = PlainTextLexer::new();
    let v = sut.tokenize("Kicsi, kutya tarka!");
    assert!(v[0].is_comma)
}

#[test]
fn detect_text() {
    let mut sut = PlainTextLexer::new();
    let v = sut.tokenize("Kicsi kutya tarka!");
    assert!(!v[0].is_comma && !v[0].is_full_stop)
}

#[test]
fn detect_full_stop() {
    let mut sut = PlainTextLexer::new();
    let v = sut.tokenize("Kicsi. kutya tarka!");
    assert!(v[0].is_full_stop)
}

#[test]
fn tokenize_positions() {
    let mut sut = PlainTextLexer::new();
    let v = sut.tokenize("ab cde\nf");
    assert_eq!(v.len(), 3);
    assert_eq!((v[0].row, v[0].col), (1, 1));
    assert_eq!(v[0].text, "ab");
    assert_eq!((v[1].row, v[1].col), (1, 4));
    assert_eq!(v[1].text, "cde");
    assert_eq!((v[2].row, v[2].col), (2, 1));
    assert_eq!(v[2].text, "f");
}

#[test]
fn tokenize_consecutive_spaces_keep_empty_words() {
    let mut sut = PlainTextLexer::new();
    let v = sut.tokenize("a  b");
    assert_eq!(v.len(), 3);
    assert_eq!(v[1].text, "");
}

#[test]
fn tokenize_row_advances_row_once() {
    let mut sut = PlainTextLexer::new();
    let first = sut.tokenize_row("ab cd");
    let second = sut.tokenize_row("e");
    assert_eq!(first.len(), 2);
    assert_eq!((first[0].row, first[0].col), (1, 1));
    assert_eq!((first[1].row, first[1].col), (1, 4));
    assert_eq!((second[0].row, second[0].col), (2, 1));
}

#[test]
fn token_new_flags() {
    let t = Token::new("alma,", 3, 7);
    assert!(t.is_comma);
    assert!(!t.is_full_stop);
    assert_eq!(t.text, "alma,");
    assert_eq!((t.row, t.col), (3, 7));

    let u = Token::new("vége.", 1, 1);
    assert!(u.is_full_stop);
    assert!(!u.is_comma);

    let empty = Token::new("", 1, 1);
    assert!(!empty.is_comma && !empty.is_full_stop);
}
