use comma_check::detector::PairDetector;
use comma_check::model::PairSettings;
use comma_check::model::PlainTextToken;

fn detector(firsts: Vec<&str>, seconds: Vec<Vec<&str>>, probs: Vec<u32>) -> PairDetector {
    PairDetector::new(PairSettings {
        first_words: firsts.into_iter().map(String::from).collect(),
        second_words: seconds
            .into_iter()
            .map(|v| v.into_iter().map(String::from).collect())
            .collect(),
        probs,
    })
}

#[test]
fn pair_empty_str() {
    let mut sut = detector(vec![], vec![], vec![]);
    let tokens = PlainTextToken::lexer("");
    let errors = sut.detect_errors(&tokens);

    assert_eq!(errors.len(), 0);
}

#[test]
fn pair_comma_provided() {
    let mut sut = detector(vec!["mind", "abban"], vec![vec!["mind"], vec!["hogy"]], vec![1000]);
    let tokens = PlainTextToken::lexer(
        "Mind a tanárok, mind a diákok egyetértenek abban, hogy változásra van szükség!",
    );
    let errors = sut.detect_errors(&tokens);

    assert_eq!(errors.len(), 0);
}

#[test]
fn pair_semicolon_provided() {
    let mut sut = detector(vec!["mind", "abban"], vec![vec!["mind"], vec!["hogy"]], vec![1000]);
    let tokens = PlainTextToken::lexer(
        "Mind a tanárok, mind a diákok egyetértenek abban; hogy változásra van szükség!",
    );
    let errors = sut.detect_errors(&tokens);

    assert_eq!(errors.len(), 0);
}

#[test]
fn one_comma_missing() {
    let mut sut = detector(vec!["mind", "abban"], vec![vec!["mind"], vec!["hogy"]], vec![1000]);
    let tokens = PlainTextToken::lexer(
        "Mind a tanárok mind a diákok egyetértenek abban, hogy változásra van szükség!",
    );
    let errors = sut.detect_errors(&tokens);

    assert_eq!(errors.len(), 1);
}

#[test]
fn both_commas_missing() {
    let mut sut = detector(
        vec!["mind", "abban"],
        vec![vec!["mind"], vec!["hogy"]],
        vec![1000, 800],
    );
    let tokens = PlainTextToken::lexer(
        "Mind a tanárok mind a diákok egyetértenek abban hogy változásra van szükség!",
    );
    let errors = sut.detect_errors(&tokens);

    assert_eq!(errors.len(), 2);
}

#[test]
fn example_correct() {
    let mut sut = detector(vec!["ha"], vec![vec!["akkor"]], vec![1000]);
    let tokens = PlainTextToken::lexer("Ha mész vásárolni, akkor ne felejts el tejet hozni!");
    let errors = sut.detect_errors(&tokens);

    assert_eq!(errors.len(), 0);
}

#[test]
fn example_incorrect() {
    let mut sut = detector(vec!["ha"], vec![vec!["akkor"]], vec![1000]);
    let tokens = PlainTextToken::lexer("Ha mész vásárolni akkor ne felejts el tejet hozni!");
    let errors = sut.detect_errors(&tokens);

    assert_eq!(errors.len(), 1);
}

#[test]
fn no_detection_over_sentences() {
    let mut sut = detector(vec!["mind", "abban"], vec![vec!["mind"], vec!["hogy"]], vec![1000]);
    let tokens = PlainTextToken::lexer(
        "Mind hősök voltak ők. Mind az a tizenhárom, kit várt a vérpad!",
    );
    let errors = sut.detect_errors(&tokens);

    assert_eq!(errors.len(), 0);
}
