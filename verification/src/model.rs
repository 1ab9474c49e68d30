//! Data model: classified lexical tokens, diagnostics, and the rule tables
//! that drive the detectors.

mod mistake;
mod naive_settings;
mod pair_settings;
mod typical_settings;
mod rule_file;
mod text_token;
mod token;

pub use text_token::LexedToken;
pub use text_token::PlainTextToken;
pub use text_token::TokView;
pub use text_token::is_bracket;
pub use text_token::is_comma_char;
pub use text_token::is_digit;
pub use text_token::is_letter;
pub use text_token::is_sentence_end;
pub use text_token::lex;
pub use text_token::tok_view;
pub use text_token::tok_views;

pub use mistake::DiagView;
pub use mistake::Mistake;
pub use mistake::Msg;
pub use mistake::diag_view;
pub use mistake::diag_views;
pub use mistake::msg_view;
pub use naive_settings::NaiveSettings;
pub use pair_settings::PairSettings;
pub use typical_settings::TypicalSettings;
pub use mistake::lemma_diag_views_push;
pub use token::Token;
pub use token::TokenV;
pub use token::ends_with_char;
pub use token::lemma_token_views_push;
pub use token::spec_token;
pub use token::token_views;
pub use rule_file::accepted_conf;
pub use rule_file::all_digits;
pub use rule_file::conf_value;
pub use rule_file::digit_of;
pub use rule_file::digits_val;
pub use rule_file::frac_permille;
pub use rule_file::is_space;
pub use rule_file::pair_rows;
pub use rule_file::parse_prob;
pub use rule_file::read_conf_field;
pub use rule_file::rule_rows;
pub use rule_file::trim_spec;
pub use rule_file::trim_str;
pub use rule_file::pair_table;
pub use rule_file::table_pairs;
pub use text_token::lemma_number_len;
pub use text_token::lemma_run_len;
pub use text_token::number_len;
pub use text_token::run_len;
