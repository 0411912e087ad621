use evlite::meta::{handle_meta_command, MetaResult};

#[test]
fn test_handle_meta_command() {
    assert_eq!(
        handle_meta_command(&".fake".to_string()),
        MetaResult::Unrecognized
    );
    assert_eq!(
        handle_meta_command(&".quit".to_string()),
        MetaResult::ExitSuccess
    );
}

#[test]
fn meta_command_must_match_to_the_letter() {
    assert_eq!(handle_meta_command(&".quit ".to_string()), MetaResult::Unrecognized);
    assert_eq!(handle_meta_command(&".qui".to_string()), MetaResult::Unrecognized);
    assert_eq!(handle_meta_command(&".quitx".to_string()), MetaResult::Unrecognized);
    assert_eq!(handle_meta_command(&"".to_string()), MetaResult::Unrecognized);
}
