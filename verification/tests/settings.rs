use comma_check::model::NaiveSettings;
use comma_check::model::PairSettings;
use comma_check::model::TypicalSettings;

#[test]
fn naive_settings_reads_words_and_thousandths() {
    let st = NaiveSettings::new_from_string(String::from("hogy;0.70\nha;1.00\n")).unwrap();
    assert_eq!(st.words, vec![String::from("hogy"), String::from("ha")]);
    assert_eq!(st.probs, vec![700, 1000]);
}

#[test]
fn naive_settings_ignores_short_lines() {
    let st = NaiveSettings::new_from_string(String::from("\nmegjegyzés\nmert;0.5\n\n")).unwrap();
    assert_eq!(st.words, vec![String::from("mert")]);
    assert_eq!(st.probs, vec![500]);
}

#[test]
fn naive_settings_accepts_integer_and_bare_fraction() {
    let st = NaiveSettings::new_from_string(String::from("a;1\nb;.5\nc;0.\nd; 0.25 \n")).unwrap();
    assert_eq!(st.probs, vec![1000, 500, 0, 250]);
}

#[test]
fn naive_settings_truncates_past_the_third_fraction_digit() {
    let st = NaiveSettings::new_from_string(String::from("a;0.1239\n")).unwrap();
    assert_eq!(st.probs, vec![123]);
}

#[test]
fn naive_settings_rejects_garbage_confidence() {
    assert!(NaiveSettings::new_from_string(String::from("hogy;sok\n")).is_none());
    assert!(NaiveSettings::new_from_string(String::from("hogy;1,0\n")).is_none());
    assert!(NaiveSettings::new_from_string(String::from("hogy;.\n")).is_none());
    assert!(NaiveSettings::new_from_string(String::from("hogy;1.0.0\n")).is_none());
}

#[test]
fn naive_settings_rejects_confidence_over_one() {
    assert!(NaiveSettings::new_from_string(String::from("hogy;1.5\n")).is_none());
    assert!(NaiveSettings::new_from_string(String::from("hogy;2\n")).is_none());
}

#[test]
fn naive_settings_empty_text_gives_empty_table() {
    let st = NaiveSettings::new_from_string(String::new()).unwrap();
    assert_eq!(st.words.len(), 0);
    assert_eq!(st.probs.len(), 0);
}

#[test]
fn pair_settings_reads_second_word_lists() {
    let st =
        PairSettings::new_from_string(String::from("mind;1.0;mind\nabban;0.8;hogy ha\n")).unwrap();
    assert_eq!(st.first_words, vec![String::from("mind"), String::from("abban")]);
    assert_eq!(st.probs, vec![1000, 800]);
    assert_eq!(st.second_words[0], vec![String::from("mind")]);
    assert_eq!(st.second_words[1], vec![String::from("hogy"), String::from("ha")]);
}

#[test]
fn pair_settings_ignores_two_field_lines() {
    let st = PairSettings::new_from_string(String::from("mind;1.0\nha;0.9;akkor\n")).unwrap();
    assert_eq!(st.first_words, vec![String::from("ha")]);
    assert_eq!(st.probs, vec![900]);
}

#[test]
fn pair_settings_rejects_bad_confidence() {
    assert!(PairSettings::new_from_string(String::from("ha;sok;akkor\n")).is_none());
}

#[test]
fn typical_settings_reads_words_and_thousandths() {
    let st = TypicalSettings::new_from_string(String::from("remélem;0.9\r\nszerintem;0.45\n"))
        .unwrap();
    assert_eq!(st.words, vec![String::from("remélem"), String::from("szerintem")]);
    assert_eq!(st.probs, vec![900, 450]);
}

#[test]
fn typical_settings_rejects_bad_confidence() {
    assert!(TypicalSettings::new_from_string(String::from("remélem;0..9\n")).is_none());
}
