use chisel_gpt::command_helper::{CommandHelper, Lexeme, Validation, LEADING_INDEX_MESSAGE};
use chisel_gpt::complete::parse_chat_completion_response;
use chisel_gpt::context::create_context_string;
use chisel_gpt::foundry_interface::FOUNDRY_INTERFACE;

#[test]
fn closed_input_is_valid() {
    assert_eq!(CommandHelper::validate_closed("uint256 x = (1 + 2);"), Validation::Valid);
    assert_eq!(CommandHelper::validate_closed("contract A { uint[] a; }"), Validation::Valid);
}

#[test]
fn open_brace_is_incomplete() {
    assert_eq!(CommandHelper::validate_closed("contract A {"), Validation::Incomplete);
    assert_eq!(CommandHelper::validate_closed("foo(1, [2"), Validation::Incomplete);
}

#[test]
fn recorded_lexer_errors_play_no_part() {
    assert_eq!(CommandHelper::validate_closed("string s = \"abc"), Validation::Valid);
    assert_eq!(CommandHelper::validate_closed("/* comment"), Validation::Valid);
    assert_eq!(CommandHelper::validate_closed("foo( /* comment"), Validation::Incomplete);
}

#[test]
fn yielded_lexer_error_decides() {
    assert_eq!(CommandHelper::validate_closed("x = .5e ("), Validation::Valid);
    assert_eq!(CommandHelper::validate_closed("x = ( .5e"), Validation::Valid);
}

#[test]
fn braces_in_string_do_not_count() {
    assert_eq!(CommandHelper::validate_closed("string s = \"{\";"), Validation::Valid);
}

#[test]
fn extra_closer_is_ignored() {
    assert_eq!(CommandHelper::validate_closed("}}"), Validation::Valid);
}

#[test]
fn leading_index_is_invalid() {
    assert_eq!(
        CommandHelper::validate_closed(".1 foo"),
        Validation::Invalid(LEADING_INDEX_MESSAGE.to_string())
    );
    assert!(CommandHelper::skip_input(".9"));
    assert!(!CommandHelper::skip_input(".a"));
    assert!(!CommandHelper::skip_input("."));
    assert!(!CommandHelper::skip_input("1."));
}

#[test]
fn closed_status_from_tokens() {
    let open = vec![Lexeme::CurlyOpen, Lexeme::Plain, Lexeme::RoundOpen, Lexeme::RoundClose];
    assert_eq!(CommandHelper::closed_status(&open), Validation::Incomplete);
    let closed = vec![Lexeme::CurlyClose, Lexeme::CurlyOpen, Lexeme::CurlyClose];
    assert_eq!(CommandHelper::closed_status(&closed), Validation::Valid);
    let bad_number = vec![Lexeme::CurlyOpen, Lexeme::ExponentMissing, Lexeme::StringUnclosed];
    assert_eq!(CommandHelper::closed_status(&bad_number), Validation::Valid);
    let unclosed = vec![Lexeme::Plain, Lexeme::CommentUnclosed, Lexeme::TokenUnrecognised];
    assert_eq!(CommandHelper::closed_status(&unclosed), Validation::Incomplete);
    assert_eq!(CommandHelper::closed_status(&vec![Lexeme::HexUnclosed]), Validation::Incomplete);
    assert_eq!(CommandHelper::closed_status(&vec![]), Validation::Valid);
}

#[test]
fn helper_tracks_errored() {
    let mut helper = CommandHelper::new();
    assert!(!helper.errored);
    helper.set_errored(true);
    assert!(helper.errored);
    helper.set_errored(false).set_errored(true);
    assert!(helper.errored);
}

#[test]
fn context_string_holds_its_parts_in_order() {
    let s = create_context_string("HELP-TEXT".to_string(), "SESSION-SOURCE".to_string());
    let help = s.find("HELP-TEXT").unwrap();
    let session = s.find("SESSION-SOURCE").unwrap();
    let iface = s.find(FOUNDRY_INTERFACE).unwrap();
    assert!(help < session && session < iface);
    assert!(s.starts_with("\n  This prompt is designed"));
    assert!(s.ends_with("to mark the end of the commands.\n  "));
    assert!(s.contains("##START##"));
}

#[test]
fn chunk_text_joins_present_contents() {
    let parts = vec![Some("contract ".to_string()), None, Some("A {".to_string())];
    assert_eq!(parse_chat_completion_response(parts), "contract A {");
    assert_eq!(parse_chat_completion_response(vec![]), "");
}
