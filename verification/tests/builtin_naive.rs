use comma_check::detector::builtin_naive::NaiveDetector;
use comma_check::model::PlainTextToken;

#[test]
fn logos_naive_empty_str() {
    let mut sut = NaiveDetector::new();
    let tokens = PlainTextToken::lexer("");
    let errors = sut.detect_errors(&tokens);

    assert_eq!(errors.len(), 0);
}

#[test]
fn logos_naive_no_comma_in_sight() {
    let mut sut = NaiveDetector::new();
    let tokens = PlainTextToken::lexer("Ki kopog? Mi kopog? Egy fekete holló!");
    let errors = sut.detect_errors(&tokens);

    assert_eq!(errors.len(), 0);
}

#[test]
fn logos_naive_comma_provided() {
    let mut sut = NaiveDetector::new();
    let tokens = PlainTextToken::lexer("Azt szeretném mondani, hogy minden jól sikerült.");
    let errors = sut.detect_errors(&tokens);

    assert_eq!(errors.len(), 0);
}

#[test]
fn logos_naive_comma_duplicate_words() {
    let mut sut = NaiveDetector::new();
    let tokens = PlainTextToken::lexer("Nem értem, hogy hogy kellene ezt csinálni.");
    let errors = sut.detect_errors(&tokens);

    assert_eq!(errors.len(), 0);
}

#[test]
fn logos_naive_no_comma_one_line() {
    let mut sut = NaiveDetector::new();
    let tokens = PlainTextToken::lexer("Azt szeretném mondani hogy minden jól sikerült.");
    let errors = sut.detect_errors(&tokens);

    assert_eq!(errors.len(), 1);
}

#[test]
fn logos_naive_no_comma_next_line() {
    let mut sut = NaiveDetector::new();
    let tokens = PlainTextToken::lexer("Azt szeretném mondani\nhogy minden jól sikerült.");
    let errors = sut.detect_errors(&tokens);

    assert_eq!(errors.len(), 1);
}

#[test]
fn logos_naive_no_comma_multiple_lines() {
    let mut sut = NaiveDetector::new();
    let tokens = PlainTextToken::lexer("Azt szeretném mondani\n\n\n\nhogy minden jól sikerült.");
    let errors = sut.detect_errors(&tokens);

    assert_eq!(errors.len(), 1);
}

#[test]
fn logos_naive_no_comma_duplicate_words() {
    let mut sut = NaiveDetector::new();
    let tokens = PlainTextToken::lexer("Nem értem hogy hogy kellene ezt csinálni.");
    let errors = sut.detect_errors(&tokens);

    assert_eq!(errors.len(), 1);
}

#[test]
fn logos_naive_no_comma_multiple_error_one_line() {
    let mut sut = NaiveDetector::new();
    let tokens =
        PlainTextToken::lexer("Nem értem hogy kellene ezt csinálni. Elmagyarázod ha szépen megkérlek?");
    let errors = sut.detect_errors(&tokens);

    assert_eq!(errors.len(), 2);
}

#[test]
fn logos_naive_reports_the_table_confidence() {
    let mut sut = NaiveDetector::new();
    let tokens = PlainTextToken::lexer("mondom hogy");
    let errors = sut.detect_errors(&tokens);
    assert_eq!(errors, vec![(1, 8, 700)]);

    let mut sut = NaiveDetector::new();
    let tokens = PlainTextToken::lexer("jobb mint más");
    let errors = sut.detect_errors(&tokens);
    assert_eq!(errors, vec![(1, 6, 800)]);
}
