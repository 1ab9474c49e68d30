use comma_check::detector::NaiveForwardDetector;
use comma_check::model::NaiveSettings;
use comma_check::model::PlainTextToken;

fn detector(words: Vec<&str>, probs: Vec<u32>) -> NaiveForwardDetector {
    NaiveForwardDetector::new(NaiveSettings {
        words: words.into_iter().map(String::from).collect(),
        probs,
    })
}

#[test]
fn naive_forward_empty_str() {
    let mut sut = detector(vec!["szia"], vec![1000]);
    let tokens = PlainTextToken::lexer("");
    let errors = sut.detect_errors(&tokens);

    assert_eq!(errors.len(), 0);
}

#[test]
fn naive_forward_no_comma_in_sight() {
    let mut sut = detector(vec!["szia"], vec![1000]);
    let tokens = PlainTextToken::lexer("Mi van?");
    let errors = sut.detect_errors(&tokens);

    assert_eq!(errors.len(), 0);
}

#[test]
fn no_comma_required_if_terminated() {
    let mut sut = detector(vec!["szia"], vec![1000]);
    let tokens = PlainTextToken::lexer("Szia!");
    let errors = sut.detect_errors(&tokens);

    assert_eq!(errors.len(), 0);
}

#[test]
fn naive_forward_comma_provided() {
    let mut sut = detector(vec!["szia"], vec![1000]);
    let tokens = PlainTextToken::lexer("Szia, meghoztuk a tudod... Hmmm...");
    let errors = sut.detect_errors(&tokens);

    assert_eq!(errors.len(), 0);
}

#[test]
fn naive_forward_semicolon_provided() {
    let mut sut = detector(vec!["szia"], vec![1000]);
    let tokens = PlainTextToken::lexer("Szia; meghoztuk a tudod... Hmmm...");
    let errors = sut.detect_errors(&tokens);

    assert_eq!(errors.len(), 0);
}

#[test]
fn naive_forward_comma_missing() {
    let mut sut = detector(vec!["szia"], vec![1000]);
    let tokens = PlainTextToken::lexer("Szia meghoztuk a tudod... Hmmm...");
    let errors = sut.detect_errors(&tokens);

    assert_eq!(errors.len(), 1);
}
