use comma_check::detector::NaiveDetector;
use comma_check::model::NaiveSettings;
use comma_check::model::PlainTextToken;

fn detector(words: Vec<&str>, probs: Vec<u32>) -> NaiveDetector {
    NaiveDetector::new(NaiveSettings {
        words: words.into_iter().map(String::from).collect(),
        probs,
    })
}

#[test]
fn naive_empty_str() {
    let mut sut = detector(vec![], vec![]);
    let tokens = PlainTextToken::lexer("");
    let errors = sut.detect_errors(&tokens);

    assert_eq!(errors.len(), 0);
}

#[test]
fn naive_no_comma_in_sight() {
    let mut sut = detector(vec!["hogy", "ha"], vec![1000, 1000]);
    let tokens = PlainTextToken::lexer("Ki kopog? Mi kopog? Egy fekete holló!");
    let errors = sut.detect_errors(&tokens);

    assert_eq!(errors.len(), 0);
}

#[test]
fn naive_comma_provided() {
    let mut sut = detector(vec!["hogy"], vec![1000]);
    let tokens = PlainTextToken::lexer("Azt szeretném mondani, hogy minden jól sikerült.");
    let errors = sut.detect_errors(&tokens);

    assert_eq!(errors.len(), 0);
}

#[test]
fn naive_semicolon_provided() {
    let mut sut = detector(vec!["hogy"], vec![1000]);
    let tokens = PlainTextToken::lexer("Azt szeretném mondani; hogy minden jól sikerült.");
    let errors = sut.detect_errors(&tokens);

    assert_eq!(errors.len(), 0);
}

#[test]
fn naive_comma_duplicate_words() {
    let mut sut = detector(vec!["hogy"], vec![1000]);
    let tokens = PlainTextToken::lexer("Nem értem, hogy hogy kellene ezt csinálni.");
    let errors = sut.detect_errors(&tokens);

    assert_eq!(errors.len(), 0);
}

#[test]
fn naive_no_comma_one_line() {
    let mut sut = detector(vec!["hogy"], vec![1000]);
    let tokens = PlainTextToken::lexer("Azt szeretném mondani hogy minden jól sikerült.");
    let errors = sut.detect_errors(&tokens);

    assert_eq!(errors.len(), 1);
}

#[test]
fn naive_no_comma_next_line() {
    let mut sut = detector(vec!["hogy"], vec![1000]);
    let tokens = PlainTextToken::lexer("Azt szeretném mondani\nhogy minden jól sikerült.");
    let errors = sut.detect_errors(&tokens);

    assert_eq!(errors.len(), 1);
}

#[test]
fn naive_no_comma_multiple_lines() {
    let mut sut = detector(vec!["hogy"], vec![1000]);
    let tokens = PlainTextToken::lexer("Azt szeretném mondani\n\n\n\nhogy minden jól sikerült.");
    let errors = sut.detect_errors(&tokens);

    assert_eq!(errors.len(), 1);
}

#[test]
fn naive_no_comma_duplicate_words() {
    let mut sut = detector(vec!["hogy"], vec![1000]);
    let tokens = PlainTextToken::lexer("Nem értem hogy hogy kellene ezt csinálni.");
    let errors = sut.detect_errors(&tokens);

    assert_eq!(errors.len(), 1);
}

#[test]
fn naive_no_comma_multiple_error_one_line() {
    let mut sut = detector(vec!["hogy", "ha"], vec![1000, 1000]);
    let tokens =
        PlainTextToken::lexer("Nem értem hogy kellene ezt csinálni. Elmagyarázod ha szépen megkérlek?");
    let errors = sut.detect_errors(&tokens);

    assert_eq!(errors.len(), 2);
}
