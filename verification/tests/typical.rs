use comma_check::detector::TypicalDetector;
use comma_check::model::PlainTextToken;
use comma_check::model::TypicalSettings;

fn detector(words: Vec<&str>, probs: Vec<u32>) -> TypicalDetector {
    TypicalDetector::new(TypicalSettings {
        words: words.into_iter().map(String::from).collect(),
        probs,
    })
}

#[test]
fn typical_empty_str() {
    let mut sut = detector(vec![], vec![]);
    let tokens = PlainTextToken::lexer("");
    let errors = sut.detect_errors(&tokens);

    assert_eq!(errors.len(), 0);
}

#[test]
fn typical_comma_provided() {
    let mut sut = detector(vec!["remélem"], vec![1000]);
    let tokens = PlainTextToken::lexer("Remélem, jól van.");
    let errors = sut.detect_errors(&tokens);

    assert_eq!(errors.len(), 0);
}

#[test]
fn comma_provided_before() {
    let mut sut = detector(vec!["remélem"], vec![1000]);
    let tokens = PlainTextToken::lexer("Jól van, remélem.");
    let errors = sut.detect_errors(&tokens);

    assert_eq!(errors.len(), 0);
}

#[test]
fn typical_semicolon_provided() {
    let mut sut = detector(vec!["remélem"], vec![1000]);
    let tokens = PlainTextToken::lexer("Remélem; jól van.");
    let errors = sut.detect_errors(&tokens);

    assert_eq!(errors.len(), 0);
}

#[test]
fn typical_comma_missing() {
    let mut sut = detector(vec!["remélem"], vec![1000]);
    let tokens = PlainTextToken::lexer("Remélem jól van.");
    let errors = sut.detect_errors(&tokens);

    assert_eq!(errors.len(), 1);
}
