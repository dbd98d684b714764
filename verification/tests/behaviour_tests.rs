use sbyte::editor::content::{Content, ContentError};
use sbyte::editor::formatter::FormatterRef;
use sbyte::editor::{parse_words, string_to_bytes, string_to_integer, Editor, SbyteError};

fn pause(nanos: u64) {
    let start = std::time::Instant::now();
    while start.elapsed() < std::time::Duration::from_nanos(nanos) {}
}

#[test]
fn undo_takes_back_an_insertion_of_its_own() {
    let mut editor = Editor::new();
    let _ = editor.insert_bytes(0, &[1, 2, 3]);
    pause(80_000_000);
    let _ = editor.insert_bytes(1, &[9, 9]);
    assert_eq!(editor.get_active_content(), [1, 9, 9, 2, 3]);
    assert_eq!(editor.get_undo_history().len(), 2);

    assert_eq!(editor.undo(), Ok(1));
    assert_eq!(editor.get_active_content(), [1, 2, 3]);
    assert_eq!(editor.get_undo_history().len(), 1);

    assert_eq!(editor.redo(), Ok(1));
    assert_eq!(editor.get_active_content(), [1, 9, 9, 2, 3]);
}

#[test]
fn undo_puts_back_removed_bytes() {
    let mut editor = Editor::new();
    let _ = editor.insert_bytes(0, &[10, 20, 30, 40]);
    pause(80_000_000);
    assert_eq!(editor.remove_bytes(1, 2), [20, 30]);
    assert_eq!(editor.get_active_content(), [10, 40]);

    assert_eq!(editor.undo(), Ok(1));
    assert_eq!(editor.get_active_content(), [10, 20, 30, 40]);

    assert_eq!(editor.redo(), Ok(1));
    assert_eq!(editor.get_active_content(), [10, 40]);
}

#[test]
fn undo_of_a_quick_burst_takes_back_all_of_it() {
    let mut editor = Editor::new();
    let _ = editor.insert_bytes(0, &[1]);
    let _ = editor.insert_bytes(0, &[2]);
    let _ = editor.remove_bytes(1, 1);
    assert_eq!(editor.get_active_content(), [2]);
    assert_eq!(editor.undo(), Ok(3));
    assert_eq!(editor.get_active_content(), []);
    assert_eq!(editor.undo(), Err(SbyteError::EmptyStack));
}

#[test]
fn adjacent_insertions_merge_into_one_entry() {
    let mut editor = Editor::new();
    let _ = editor.insert_bytes(0, &[1, 2]);
    let _ = editor.insert_bytes(2, &[3]);
    assert_eq!(editor.get_undo_history().len(), 1);
    assert_eq!(editor.get_undo_history()[0].0, 0);
    assert_eq!(editor.get_undo_history()[0].1, 3);
}

#[test]
fn redo_with_nothing_undone_is_an_empty_stack() {
    let mut editor = Editor::new();
    assert_eq!(editor.redo(), Err(SbyteError::EmptyStack));
}

#[test]
fn decrement_after_increment_restores_the_word() {
    let mut editor = Editor::new();
    let _ = editor.insert_bytes(0, &[0x01, 0xFF, 0xFF]);
    assert_eq!(editor.increment_byte(2, 3), Ok(()));
    assert_eq!(editor.get_active_content(), [0x02, 0x00, 0x00]);
    assert_eq!(editor.decrement_byte(2, 3), Ok(()));
    assert_eq!(editor.get_active_content(), [0x01, 0xFF, 0xFF]);
}

#[test]
fn increment_past_the_content_is_out_of_bounds() {
    let mut editor = Editor::new();
    let _ = editor.insert_bytes(0, &[7]);
    assert_eq!(editor.increment_byte(3, 1), Err(SbyteError::OutOfBounds(3, 1)));
    assert_eq!(editor.get_active_content(), [7]);
}

#[test]
fn insertion_past_the_end_is_out_of_bounds() {
    let mut editor = Editor::new();
    let _ = editor.insert_bytes(0, &[7]);
    assert_eq!(editor.insert_bytes(5, &[1]), Err(SbyteError::OutOfBounds(5, 1)));
    assert_eq!(editor.get_active_content(), [7]);
}

#[test]
fn xor_masking_twice_gives_the_bytes_back() {
    let mut editor = Editor::new();
    let _ = editor.insert_bytes(0, &[0x0F, 0xAA, 0x55]);
    editor.make_selection(0, 3);
    assert_eq!(editor.apply_xor_mask(&[0xFF, 0x0F]), Ok(()));
    assert_eq!(editor.get_active_content(), [0xF0, 0xA5, 0xAA]);
    assert_eq!(editor.apply_xor_mask(&[0xFF, 0x0F]), Ok(()));
    assert_eq!(editor.get_active_content(), [0x0F, 0xAA, 0x55]);
}

#[test]
fn masks_combine_each_byte() {
    let mut editor = Editor::new();
    let _ = editor.insert_bytes(0, &[0b1100, 0b1010]);
    editor.make_selection(0, 2);
    assert_eq!(editor.apply_and_mask(&[0b0110]), Ok(()));
    assert_eq!(editor.get_active_content(), [0b0100, 0b0010]);
    assert_eq!(editor.apply_or_mask(&[0b0001]), Ok(()));
    assert_eq!(editor.get_active_content(), [0b0101, 0b0011]);
    assert_eq!(editor.apply_nor_mask(&[0b0001]), Ok(()));
    assert_eq!(editor.get_active_content(), [0b1111_1010, 0b1111_1100]);
    assert_eq!(editor.apply_nand_mask(&[0xF0]), Ok(()));
    assert_eq!(editor.get_active_content(), [0b0000_1111, 0b0000_1111]);
}

#[test]
fn formatters_cycle_back_after_three_toggles() {
    let mut editor = Editor::new();
    let first = editor.get_active_formatter_ref();
    editor.toggle_formatter();
    assert_ne!(editor.get_active_formatter_ref(), first);
    editor.toggle_formatter();
    editor.toggle_formatter();
    assert_eq!(editor.get_active_formatter_ref(), first);
}

#[test]
fn toggling_visits_binary_hex_and_decimal() {
    let mut editor = Editor::new();
    editor.set_active_formatter(FormatterRef::BIN);
    assert_eq!(editor.get_display_ratio(), 9);
    editor.toggle_formatter();
    assert_eq!(editor.get_active_formatter_ref(), FormatterRef::HEX);
    assert_eq!(editor.get_display_ratio(), 3);
    editor.toggle_formatter();
    assert_eq!(editor.get_active_formatter_ref(), FormatterRef::DEC);
    assert_eq!(editor.get_display_ratio(), 4);
    editor.toggle_formatter();
    assert_eq!(editor.get_active_formatter_ref(), FormatterRef::BIN);
}

#[test]
fn a_digit_the_view_cannot_show_is_refused() {
    let mut editor = Editor::new();
    let _ = editor.insert_bytes(0, &[0]);
    editor.set_active_formatter(FormatterRef::BIN);
    assert_eq!(editor.replace_digit('7'), Err(SbyteError::InvalidDigit(FormatterRef::BIN)));
    assert_eq!(editor.get_active_content(), [0]);
}

#[test]
fn saving_without_a_path_is_refused() {
    let editor = Editor::new();
    assert_eq!(editor.save(), Err(SbyteError::PathNotSet));
}

#[test]
fn saving_gives_the_file_path() {
    let mut editor = Editor::new();
    editor.set_file_path("some/file");
    assert_eq!(editor.save(), Ok("some/file".to_string()));
}

#[test]
fn loading_replaces_the_content() {
    let mut editor = Editor::new();
    let _ = editor.insert_bytes(0, &[1, 2]);
    editor.begin_load("data.bin");
    assert!(editor.is_loading());
    editor.complete_load(&[9, 8, 7]);
    assert!(!editor.is_loading());
    assert_eq!(editor.get_active_content(), [9, 8, 7]);
    assert_eq!(editor.get_active_file_path(), Some(&"data.bin".to_string()));
}

#[test]
fn a_bad_binary_literal_in_a_search_is_reported() {
    let mut editor = Editor::new();
    let _ = editor.insert_bytes(0, &[0]);
    assert!(matches!(editor.find_all("\\b0000000b"), Err(SbyteError::InvalidBinary(_))));
}

#[test]
fn a_pattern_that_does_not_compile_is_reported() {
    let mut editor = Editor::new();
    let _ = editor.insert_bytes(0, &[0]);
    assert_eq!(editor.find_all("(").err(), Some(SbyteError::InvalidRegex("(".to_string())));
}

#[test]
fn searches_wrap_around_the_content() {
    let mut editor = Editor::new();
    let _ = editor.insert_bytes(0, &[65, 0, 65, 0]);
    assert_eq!(editor.find_after("A", 2).ok().unwrap(), Some((0, 1)));
    assert_eq!(editor.find_before("A", 0).ok().unwrap(), Some((2, 3)));
    assert_eq!(editor.find_nth_after("A", 0, 1).ok().unwrap(), Some((0, 1)));
    assert_eq!(editor.find_after("B", 0).ok().unwrap(), None);
}

#[test]
fn replacing_every_match() {
    let mut editor = Editor::new();
    let _ = editor.insert_bytes(0, &[1, 2, 1, 2, 3]);
    assert_eq!(editor.replace("\\x01\\x02", &[7]), Ok(vec![2, 0]));
    assert_eq!(editor.get_active_content(), [7, 7, 3]);
}

#[test]
fn number_arguments_read_back_big_endian() {
    assert_eq!(string_to_bytes("\\d258"), Ok(vec![1, 2]));
    assert_eq!(string_to_bytes("\\x0102"), Ok(vec![1, 2]));
    assert_eq!(string_to_bytes("\\b100000010"), Ok(vec![1, 2]));
    assert_eq!(string_to_bytes("AB"), Ok(vec![65, 66]));
}

#[test]
fn integers_in_three_radixes() {
    assert_eq!(string_to_integer("255"), Ok(255));
    assert_eq!(string_to_integer("\\xFF"), Ok(255));
    assert_eq!(string_to_integer("\\b11111111"), Ok(255));
    assert!(string_to_integer("\\xZZ").is_err());
}

#[test]
fn words_are_never_empty() {
    let words = parse_words("  a  'b c'  \"\"  d ");
    assert_eq!(words, vec!["a".to_string(), "b c".to_string(), "d".to_string()]);
    for word in words.iter() {
        assert!(!word.is_empty());
    }
}

#[test]
fn setting_a_byte_past_the_end_is_out_of_bounds() {
    let mut content = Content::new();
    content.push(5);
    assert_eq!(content.set_byte(1, 7), Err(ContentError::OutOfBounds(1, 1)));
    assert_eq!(content.set_byte(0, 7), Ok(5));
    assert_eq!(content.as_slice(), [7]);
}

#[test]
fn changed_offsets_are_reported_once() {
    let mut editor = Editor::new();
    let _ = editor.insert_bytes(0, &[1, 2]);
    let _ = editor.overwrite_bytes(1, &[3]);
    let changed = editor.fetch_changed_offsets();
    assert!(changed.contains(&(0, true)));
    assert!(changed.contains(&(1, false)));
    assert!(editor.fetch_changed_offsets().is_empty());
}

#[test]
fn search_history_keeps_the_latest_last() {
    let mut editor = Editor::new();
    editor.add_search_history("one".to_string());
    editor.add_search_history("two".to_string());
    assert_eq!(editor.get_search_history(), vec!["one".to_string(), "two".to_string()]);
}

#[test]
fn a_hex_wildcard_spans_sixteen_bytes() {
    let mut editor = Editor::new();
    let bytes: Vec<u8> = (0x8E..=0xA1).collect();
    let _ = editor.insert_bytes(0, &bytes);
    let expected: Vec<(usize, usize)> = (2..18).map(|i| (i, i + 1)).collect();
    assert_eq!(editor.find_all("\\x9.").ok(), Some(expected.clone()));
    assert_eq!(editor.find_all("\\b1001....").ok(), Some(expected));
}

#[test]
fn binary_wildcards_need_not_be_together() {
    let mut editor = Editor::new();
    let bytes: Vec<u8> = (0x8E..=0xA1).collect();
    let _ = editor.insert_bytes(0, &bytes);
    // 0x90 and 0x92 sit at offsets 2 and 4.
    assert_eq!(editor.find_all("\\b100100.0").ok(), Some(vec![(2, 3), (4, 5)]));
}

#[test]
fn written_numbers_read_back() {
    for n in [0usize, 1, 9, 10, 255, 256, 4096, 65535, 123456789] {
        assert_eq!(string_to_integer(&n.to_string()), Ok(n));
        assert_eq!(string_to_integer(&format!("\\x{:X}", n)), Ok(n));
        assert_eq!(string_to_integer(&format!("\\b{:b}", n)), Ok(n));
    }
}

#[test]
fn written_numbers_read_back_as_bytes() {
    for n in [1usize, 9, 255, 256, 4096, 65535, 123456789] {
        let mut be: Vec<u8> = n.to_be_bytes().iter().copied().skip_while(|b| *b == 0).collect();
        if be.is_empty() {
            be.push(0);
        }
        assert_eq!(string_to_bytes(&format!("\\x{:X}", n)), Ok(be.clone()));
        assert_eq!(string_to_bytes(&format!("\\d{}", n)), Ok(be.clone()));
        assert_eq!(string_to_bytes(&format!("\\b{:b}", n)), Ok(be));
    }
}

#[test]
fn plain_text_splits_at_spaces() {
    let s = "  one two   three ";
    let expected: Vec<String> = s.split(' ').filter(|w| !w.is_empty()).map(|w| w.to_string()).collect();
    assert_eq!(parse_words(s), expected);
}
