use agerus_core::commands::{parse_input, InputCommand};

fn parse(s: &str) -> InputCommand {
    parse_input(&s.as_bytes().to_vec())
}

#[test]
fn blank_input_is_nothing() {
    assert_eq!(parse(""), InputCommand::Nothing);
    assert_eq!(parse("   \t "), InputCommand::Nothing);
}

#[test]
fn plain_text_is_submitted() {
    assert_eq!(parse("hello there"), InputCommand::Submit(b"hello there".to_vec()));
}

#[test]
fn new_session_with_and_without_name() {
    assert_eq!(parse("/new"), InputCommand::NewSession(None));
    assert_eq!(
        parse("/new notes"),
        InputCommand::NewSession(Some(b"notes".to_vec()))
    );
}

#[test]
fn save_and_list_and_reset() {
    assert_eq!(parse("/save"), InputCommand::SaveSession);
    assert_eq!(parse("/list"), InputCommand::ListSessions);
    assert_eq!(parse("/reset"), InputCommand::ResetContext);
}

#[test]
fn load_requires_a_name() {
    assert_eq!(parse("/load"), InputCommand::LoadSession(None));
    assert_eq!(
        parse("/load monday"),
        InputCommand::LoadSession(Some(b"monday".to_vec()))
    );
}

#[test]
fn model_selector_command() {
    assert_eq!(parse("/model"), InputCommand::OpenModelSelector);
}

#[test]
fn add_file_and_change_dir() {
    assert_eq!(parse("/add"), InputCommand::AddFile(None));
    assert_eq!(
        parse("/add src.rs"),
        InputCommand::AddFile(Some(b"src.rs".to_vec()))
    );
    assert_eq!(parse("/cd"), InputCommand::ChangeDir(None));
    assert_eq!(
        parse("/cd ../elsewhere"),
        InputCommand::ChangeDir(Some(b"../elsewhere".to_vec()))
    );
}

#[test]
fn unknown_slash_words_are_submitted_as_text() {
    assert_eq!(parse("/frobnicate"), InputCommand::Submit(b"/frobnicate".to_vec()));
}

#[test]
fn leading_whitespace_prevents_command_parsing() {
    // only a line that begins with the slash itself is a command
    assert_eq!(parse(" /save"), InputCommand::Submit(b" /save".to_vec()));
}

#[test]
fn extra_words_after_the_argument_are_ignored() {
    assert_eq!(
        parse("/load monday extra words"),
        InputCommand::LoadSession(Some(b"monday".to_vec()))
    );
}
