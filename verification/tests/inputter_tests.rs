use sbyte::input_interface::inputter::Inputter;
use sbyte::input_interface::keys::key_sequence;

#[test]
fn test_inputter() {
    let mut inputter = Inputter::new();
    inputter.assign_mode_command("DEFAULT", b"Q", "TEST", &[]);
    inputter.input(b"Q"[0]);
    assert_eq!(inputter.fetch_hook(), Some(("TEST".to_string(), Vec::new())));

    inputter.assign_mode_command("DEFAULT", b"ABCD", "TEST2", &[]);
    inputter.input(b'A');
    inputter.input(b'B');
    inputter.input(b'C');
    assert_eq!(inputter.fetch_hook(), None);
    inputter.input(b'D');
    assert_eq!(inputter.fetch_hook(), Some(("TEST2".to_string(), Vec::new())));

    inputter.input(b'A');
    inputter.input(b'B');
    inputter.input(b'C');
    assert_eq!(inputter.fetch_hook(), None);
    inputter.input(b'C');
    assert_eq!(inputter.fetch_hook(), None);
}

#[test]
fn bindings_belong_to_their_mode() {
    let mut inputter = Inputter::new();
    inputter.assign_mode_command("CMD", b"x", "APPEND", &["x"]);
    inputter.assign_mode_command("DEFAULT", b"x", "DELETE", &[]);

    inputter.input(b'x');
    assert_eq!(inputter.fetch_hook(), Some(("DELETE".to_string(), Vec::new())));

    inputter.set_context("CMD");
    inputter.input(b'x');
    assert_eq!(inputter.fetch_hook(), Some(("APPEND".to_string(), vec!["x".to_string()])));
}

#[test]
fn a_later_binding_of_the_same_keys_replaces_the_earlier() {
    let mut inputter = Inputter::new();
    inputter.assign_mode_command("DEFAULT", b"gg", "FIRST", &[]);
    inputter.assign_mode_command("DEFAULT", b"gg", "SECOND", &["2"]);
    inputter.input(b'g');
    inputter.input(b'g');
    assert_eq!(inputter.fetch_hook(), Some(("SECOND".to_string(), vec!["2".to_string()])));
}

#[test]
fn a_killed_inputter_is_not_alive() {
    let mut inputter = Inputter::new();
    assert!(inputter.is_alive());
    inputter.kill();
    assert!(!inputter.is_alive());
}

fn small_table() -> Vec<(String, Vec<u8>)> {
    vec![
        ("ESCAPE".to_string(), vec![0x1B]),
        ("COLON".to_string(), vec![b':']),
        ("ARROW_UP".to_string(), vec![0x1B, b'[', b'A']),
    ]
}

#[test]
fn key_names_spell_their_bytes() {
    let table = small_table();
    assert_eq!(key_sequence("COLON", &table), Some(vec![b':']));
    assert_eq!(key_sequence("ESCAPE,COLON", &table), Some(vec![0x1B, b':']));
    assert_eq!(key_sequence("ARROW_UP,ARROW_UP", &table), Some(vec![0x1B, b'[', b'A', 0x1B, b'[', b'A']));
}

#[test]
fn an_unknown_key_name_spells_nothing() {
    let table = small_table();
    assert_eq!(key_sequence("COLON,NOPE", &table), None);
    assert_eq!(key_sequence("", &table), None);
    assert_eq!(key_sequence("COLON,", &table), None);
}
