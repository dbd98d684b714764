use sbyte::editor::formatter::FormatterRef;
use sbyte::editor::SbyteError;
use sbyte::input_interface::keys::{default_key_table, key_sequence};
use sbyte::input_interface::modes::{command_step, context_after_shell, CommandStep};
use sbyte::shell::{buffer_pop, buffer_push, register_fetch, register_push, resolve_command};

#[test]
fn digits_build_up_the_register() {
    let r = register_push(None, 4);
    assert_eq!(r, Some(4));
    let r = register_push(r, 2);
    assert_eq!(r, Some(42));
    assert_eq!(register_fetch(r, 1), 42);
    assert_eq!(register_fetch(None, 1), 1);
}

#[test]
fn the_command_line_grows_and_shrinks() {
    let b = buffer_push(None, "fi");
    let b = buffer_push(b, "nd");
    assert_eq!(b, Some("find".to_string()));
    let (b, c) = buffer_pop(b);
    assert_eq!((b.clone(), c), (Some("fin".to_string()), Some('d')));
    let (b, c) = buffer_pop(Some("x".to_string()));
    assert_eq!((b, c), (Some("".to_string()), Some('x')));
    assert_eq!(buffer_pop(Some("".to_string())), (None, None));
    assert_eq!(buffer_pop(None), (None, None));
}

#[test]
fn aliases_resolve_to_the_latest_command() {
    let aliases = vec![
        ("q".to_string(), "QUIT".to_string()),
        ("w".to_string(), "SAVE".to_string()),
        ("q".to_string(), "SAVEQUIT".to_string()),
    ];
    assert_eq!(resolve_command("q", false, &aliases), "SAVEQUIT");
    assert_eq!(resolve_command("w", false, &aliases), "SAVE");
    assert_eq!(resolve_command("zz", false, &aliases), "zz");
    assert_eq!(resolve_command("q", true, &aliases), "q");
}

#[test]
fn overwrite_mode_follows_the_view() {
    assert_eq!(command_step("MODE_SET_OVERWRITE", false, FormatterRef::BIN), CommandStep::Context("OVERWRITE_BIN".to_string()));
    assert_eq!(command_step("MODE_SET_OVERWRITE", false, FormatterRef::HEX), CommandStep::Context("OVERWRITE_HEX".to_string()));
    assert_eq!(command_step("MODE_SET_OVERWRITE", false, FormatterRef::DEC), CommandStep::Context("OVERWRITE_DEC".to_string()));
}

#[test]
fn mode_commands_switch_the_context() {
    assert_eq!(command_step("MODE_SET_INSERT_ASCII", false, FormatterRef::HEX), CommandStep::Context("INSERT_ASCII".to_string()));
    assert_eq!(
        command_step("MODE_SET_SEARCH", false, FormatterRef::HEX),
        CommandStep::ContextWithBuffer("CMD".to_string(), "find ".to_string())
    );
    assert_eq!(command_step("MODE_SET_APPEND", false, FormatterRef::HEX), CommandStep::Append);
    assert_eq!(command_step("ASSIGN_INPUT", false, FormatterRef::HEX), CommandStep::AssignInput);
    assert_eq!(command_step("CURSOR_UP", false, FormatterRef::HEX), CommandStep::Shell);
}

#[test]
fn the_record_key_stops_or_starts_a_recording() {
    assert_eq!(command_step("MODE_SET_RECORD_KEY", true, FormatterRef::HEX), CommandStep::StopRecording);
    assert_eq!(
        command_step("MODE_SET_RECORD_KEY", false, FormatterRef::HEX),
        CommandStep::ContextWithBuffer("CMD".to_string(), "rec ".to_string())
    );
}

#[test]
fn shell_results_return_to_the_default_mode() {
    assert_eq!(context_after_shell("RUN_CUSTOM_COMMAND", &Ok(())), Some("DEFAULT".to_string()));
    assert_eq!(context_after_shell("CURSOR_UP", &Ok(())), None);
    assert_eq!(
        context_after_shell("x", &Err(SbyteError::InvalidCommand("x".to_string()))),
        Some("DEFAULT".to_string())
    );
    assert_eq!(context_after_shell("x", &Err(SbyteError::BufferEmpty)), Some("DEFAULT".to_string()));
    assert_eq!(context_after_shell("x", &Err(SbyteError::EmptyStack)), None);
}

#[test]
fn the_default_keys_spell_terminal_bytes() {
    let table = default_key_table();
    assert_eq!(table.len(), 132);
    assert_eq!(key_sequence("ESCAPE,COLON", &table), Some(vec![0x1B, b':']));
    assert_eq!(key_sequence("DELETE", &table), Some(vec![0x1B, b'[', b'3', 0x7E]));
    assert_eq!(key_sequence("CTRL+R", &table), Some(vec![0x12]));
    assert_eq!(key_sequence("J_LOWER", &table), Some(vec![b'j']));
}

#[test]
fn recordings_keep_commands_by_name() {
    use_recordings();
}

fn use_recordings() {
    let mut r = sbyte::shell::Recordings::new();
    assert_eq!(r.count("a"), 0);
    assert!(!r.add("a", vec!["UNDO".to_string()]));
    r.start("a");
    assert!(r.add("a", vec!["CURSOR_UP".to_string()]));
    assert!(r.add("a", vec!["INSERT_STRING".to_string(), "x".to_string()]));
    r.start("b");
    assert!(r.add("b", vec!["REDO".to_string()]));
    assert_eq!(r.count("a"), 2);
    assert_eq!(
        r.commands("a"),
        vec![vec!["CURSOR_UP".to_string()], vec!["INSERT_STRING".to_string(), "x".to_string()]]
    );
    r.start("a");
    assert_eq!(r.count("a"), 0);
    assert_eq!(r.count("b"), 1);
    assert_eq!(r.commands("zz"), Vec::<Vec<String>>::new());
}
