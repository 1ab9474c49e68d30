use comma_check::detector::NaiveDetector;
use comma_check::detector::NaiveForwardDetector;
use comma_check::detector::PairDetector;
use comma_check::detector::TypicalDetector;
use comma_check::model::NaiveSettings;
use comma_check::model::PairSettings;
use comma_check::model::PlainTextToken;
use comma_check::model::TypicalSettings;

fn naive_settings(words: Vec<&str>, probs: Vec<u32>) -> NaiveSettings {
    NaiveSettings { words: words.into_iter().map(String::from).collect(), probs }
}

#[test]
fn no_triggers_means_no_diagnostics_in_any_detector() {
    let text = "Ez a mondat egészen ártalmatlan. Ez a második is!";
    let tokens = PlainTextToken::lexer(text);

    let mut naive = NaiveDetector::new(naive_settings(vec!["hogy"], vec![1000]));
    assert_eq!(naive.detect_errors(&tokens).len(), 0);

    let mut forward = NaiveForwardDetector::new(naive_settings(vec!["szia"], vec![1000]));
    assert_eq!(forward.detect_errors(&tokens).len(), 0);

    let mut pair = PairDetector::new(PairSettings {
        first_words: vec![String::from("ha")],
        second_words: vec![vec![String::from("akkor")]],
        probs: vec![1000],
    });
    assert_eq!(pair.detect_errors(&tokens).len(), 0);

    let mut typical = TypicalDetector::new(TypicalSettings {
        words: vec![String::from("remélem")],
        probs: vec![1000],
    });
    assert_eq!(typical.detect_errors(&tokens).len(), 0);
}

#[test]
fn satisfied_triggers_mean_no_diagnostics() {
    let mut naive = NaiveDetector::new(naive_settings(vec!["hogy", "ha"], vec![1000, 1000]));
    let tokens = PlainTextToken::lexer("Tudom, hogy jó lesz; ha eljössz.");
    assert_eq!(naive.detect_errors(&tokens).len(), 0);

    let mut forward = NaiveForwardDetector::new(naive_settings(vec!["szia", "üdv"], vec![1000, 1000]));
    let tokens = PlainTextToken::lexer("Szia, megjöttem. Üdv; mindenkinek.");
    assert_eq!(forward.detect_errors(&tokens).len(), 0);
}

#[test]
fn comma_before_line_break_still_satisfies_backward_trigger() {
    let mut naive = NaiveDetector::new(naive_settings(vec!["hogy"], vec![1000]));
    let tokens = PlainTextToken::lexer("Azt mondom,\nhogy így lesz.");
    assert_eq!(naive.detect_errors(&tokens).len(), 0);
}

#[test]
fn adjacent_duplicate_triggers_flag_only_the_first() {
    let mut naive = NaiveDetector::new(naive_settings(vec!["hogy"], vec![700]));
    let tokens = PlainTextToken::lexer("hogy hogy");
    let errors = naive.detect_errors(&tokens);
    assert_eq!(errors.len(), 1);
    assert_eq!((errors[0].0, errors[0].1), (1, 1));
    assert_eq!(errors[0].2.prob, 700);
}

#[test]
fn forward_greeting_diagnostic_sits_on_the_following_word() {
    let mut forward = NaiveForwardDetector::new(naive_settings(vec!["szia"], vec![1000]));
    let tokens = PlainTextToken::lexer("Szia meghoztuk a levelet.");
    let errors = forward.detect_errors(&tokens);
    assert_eq!(errors.len(), 1);
    assert_eq!((errors[0].0, errors[0].1), (1, 6));
}

#[test]
fn naive_message_names_the_word() {
    let mut naive = NaiveDetector::new(naive_settings(vec!["hogy"], vec![700]));
    let tokens = PlainTextToken::lexer("mondom hogy");
    let errors = naive.detect_errors(&tokens);
    assert_eq!(errors.len(), 1);
    assert_eq!(errors[0].2.get_str(), "a(z) \"hogy\" szó elé általában vesszőt teszünk.");
}

#[test]
fn forward_message_names_the_word() {
    let mut forward = NaiveForwardDetector::new(naive_settings(vec!["szia"], vec![900]));
    let tokens = PlainTextToken::lexer("Szia világ");
    let errors = forward.detect_errors(&tokens);
    assert_eq!(errors.len(), 1);
    assert_eq!(errors[0].2.get_str(), "a(z) \"szia\" szó után általában vesszőt teszünk.");
    assert_eq!(errors[0].2.prob, 900);
}

#[test]
fn pair_message_names_both_words() {
    let mut pair = PairDetector::new(PairSettings {
        first_words: vec![String::from("ha")],
        second_words: vec![vec![String::from("akkor")]],
        probs: vec![800],
    });
    let tokens = PlainTextToken::lexer("ha jössz akkor szólj");
    let errors = pair.detect_errors(&tokens);
    assert_eq!(errors.len(), 1);
    assert_eq!(
        errors[0].2.get_str(),
        "a(z) \"ha\" és \"akkor\" szavak közé általában vesszőt teszünk (általában a második elé)."
    );
    assert_eq!(errors[0].2.prob, 800);
}

#[test]
fn typical_message_names_the_word_and_sits_on_the_sentence_end() {
    let mut typical = TypicalDetector::new(TypicalSettings {
        words: vec![String::from("remélem")],
        probs: vec![600],
    });
    let tokens = PlainTextToken::lexer("Remélem jól van.");
    let errors = typical.detect_errors(&tokens);
    assert_eq!(errors.len(), 1);
    assert_eq!(
        errors[0].2.get_str(),
        "mondatokba, melyekben szerepel a(z) \"remélem\" szó, gyakran teszünk vesszőt."
    );
    // "Remélem" + 1, "jól" + 1, "van" + 1 put the sentence end at column 17.
    assert_eq!((errors[0].0, errors[0].1), (1, 17));
}

#[test]
fn line_breaks_reset_column_and_advance_row_by_one() {
    let mut naive = NaiveDetector::new(naive_settings(vec!["ef", "xyz"], vec![1000, 1000]));
    let text = "ab cd\nef gh\nxyz";
    let tokens = PlainTextToken::lexer(text);
    let errors = naive.detect_errors(&tokens);
    assert_eq!(errors.len(), 2);
    assert_eq!((errors[0].0, errors[0].1), (2, 1));
    assert_eq!((errors[1].0, errors[1].1), (3, 1));
    for (row, col, _) in &errors {
        let line = text.split('\n').nth(row - 1).unwrap();
        assert!(*col <= line.chars().count());
    }
}

#[test]
fn two_independent_scans_of_the_same_text_agree() {
    let text = "Nem értem hogy kellene ezt csinálni. Elmagyarázod ha szépen megkérlek?";
    let first_tokens = PlainTextToken::lexer(text);
    let second_tokens = PlainTextToken::lexer(text);

    let mut first = NaiveDetector::new(naive_settings(vec!["hogy", "ha"], vec![700, 1000]));
    let mut second = NaiveDetector::new(naive_settings(vec!["hogy", "ha"], vec![700, 1000]));
    let a = first.detect_errors(&first_tokens);
    let b = second.detect_errors(&second_tokens);

    assert_eq!(a.len(), b.len());
    for (x, y) in a.iter().zip(b.iter()) {
        assert_eq!((x.0, x.1), (y.0, y.1));
        assert_eq!(x.2.prob, y.2.prob);
        assert_eq!(x.2.get_str(), y.2.get_str());
    }
}

#[test]
fn detect_errors_in_row_continues_a_scan() {
    let mut naive = NaiveDetector::new(naive_settings(vec!["hogy"], vec![1000]));
    let first = PlainTextToken::lexer("Azt szeretném mondani");
    let second = PlainTextToken::lexer("hogy minden jól sikerült.");

    assert_eq!(naive.detect_errors_in_row(&first).len(), 0);
    let errors = naive.detect_errors_in_row(&second);
    assert_eq!(errors.len(), 1);
    // The row moved on with the chunk; the column carries over, as the
    // cursor only returns to 1 at a line-break token.
    assert_eq!((errors[0].0, errors[0].1), (2, 23));
}

#[test]
fn detect_errors_resets_an_earlier_scan() {
    let mut naive = NaiveDetector::new(naive_settings(vec!["hogy"], vec![1000]));
    let tokens = PlainTextToken::lexer("mondom hogy");
    assert_eq!(naive.detect_errors(&tokens).len(), 1);
    let errors = naive.detect_errors(&tokens);
    assert_eq!(errors.len(), 1);
    assert_eq!((errors[0].0, errors[0].1), (1, 8));
}

#[test]
fn duplicate_rule_words_use_the_first_entry() {
    let mut naive = NaiveDetector::new(naive_settings(vec!["hogy", "hogy"], vec![700, 300]));
    let tokens = PlainTextToken::lexer("mondom hogy");
    let errors = naive.detect_errors(&tokens);
    assert_eq!(errors.len(), 1);
    assert_eq!(errors[0].2.prob, 700);
}

#[test]
fn line_break_clears_the_active_forward_trigger() {
    let mut forward = NaiveForwardDetector::new(naive_settings(vec!["szia"], vec![1000]));
    let tokens = PlainTextToken::lexer("Szia\nmeghoztuk a levelet.");
    assert_eq!(forward.detect_errors(&tokens).len(), 0);
}
