use todo_list::codec::IntErrorKind;
use todo_list::terminal::TerminalError;
use todo_list::todo::Todo;
use todo_list::todos::{TodoStorage, Todos};

fn two_todos() -> Todos {
    let mut storage = Todos::new();
    storage.insert_todo(Todo::new("foo".to_string()));
    storage.insert_todo(Todo::new("boo".to_string()));
    storage
}

fn keys_of(storage: &Todos) -> Vec<u32> {
    storage.get_collection().iter().map(|(k, _)| *k).collect()
}

#[test]
fn test_insert_and_get_todo_in_storage() {
    let mut storage = two_todos();
    assert_eq!(storage.length(), 2);
    storage.insert_todo(Todo::new("Lorem".to_string()));
    assert_eq!(storage.length(), 3);
    assert_eq!(&storage.get_one_todo(1).unwrap().message, "foo");
    assert_eq!(&storage.get_one_todo(2).unwrap().message, "boo");
    assert_eq!(&storage.get_one_todo(3).unwrap().message, "Lorem");
    assert!(!storage.get_one_todo(3).unwrap().resolved);
}

#[test]
fn test_update_one_todo_in_storage() {
    let mut storage = two_todos();
    assert_eq!(&storage.get_one_todo(1).unwrap().message, "foo");
    storage.update(1, Todo::new("Lorem".to_string()));
    assert_eq!(&storage.get_one_todo(1).unwrap().message, "Lorem");
    assert!(!storage.get_one_todo(1).unwrap().resolved);
}

#[test]
fn test_remove_todo_in_storage() {
    let mut storage = two_todos();
    assert_eq!(storage.get_collection().len(), 2);
    assert_eq!(&storage.get_one_todo(1).unwrap().message, "foo");
    storage.remove(1);
    assert_eq!(storage.get_collection().len(), 1);
}

#[test]
fn test_resolve_one_todo_is_ok() {
    let mut storage = two_todos();
    assert_eq!(storage.get_one_todo(1).unwrap().resolved, false);
    storage.resolve_one_todo(1);
    assert_eq!(storage.get_one_todo(1).unwrap().resolved, true);
}

// One record per line: the line break ends the record and is not part of the message.
#[test]
fn test_parse_file_for_todos() {
    let mut storage = Todos::new();
    assert_eq!(storage.length(), 0);
    assert!(storage.parse_text_for_todos("1-false-foo\n").is_ok());
    let todo = storage.get_one_todo(1).unwrap();
    assert!(!todo.resolved);
    assert_eq!(todo.message, "foo");
    assert_eq!(storage.length(), 1);
}

#[test]
fn test_parse_map_write_file() {
    let storage = two_todos();
    let text = storage.parse_map_to_text();
    assert!(text.contains("1-false-foo"));
    assert!(text.contains("2-false-boo"));
}

#[test]
fn insert_returns_consecutive_keys() {
    let mut storage = Todos::new();
    assert_eq!(storage.insert_todo(Todo::new("a".to_string())), 1);
    assert_eq!(storage.insert_todo(Todo::new("b".to_string())), 2);
    assert_eq!(storage.length(), 2);
}

#[test]
fn keys_are_not_reused_after_removal() {
    let mut storage = Todos::new();
    storage.insert_todo(Todo::new("a".to_string()));
    storage.insert_todo(Todo::new("b".to_string()));
    storage.remove(2);
    storage.remove(1);
    assert_eq!(storage.is_empty(), 0);
    assert_eq!(storage.insert_todo(Todo::new("c".to_string())), 3);
    assert_eq!(keys_of(&storage), vec![3]);
}

#[test]
fn scenario_buy_milk_and_write_report() {
    let mut storage = Todos::new();
    assert_eq!(storage.insert_todo(Todo::new("Buy milk".to_string())), 1);
    assert_eq!(storage.insert_todo(Todo::new("Write report".to_string())), 2);
    assert!(storage.resolve_one_todo(1));
    assert!(storage.get_one_todo(1).unwrap().resolved);
    assert!(!storage.get_one_todo(2).unwrap().resolved);
    let text = storage.parse_map_to_text();
    assert_eq!(text, "1-true-Buy milk\n2-false-Write report");

    let mut loaded = Todos::new();
    assert!(loaded.parse_text_for_todos(&text).is_ok());
    assert_eq!(loaded.length(), 2);
    assert_eq!(loaded.is_empty(), 2);
    let first = loaded.get_one_todo(1).unwrap();
    assert_eq!(first.message, "Buy milk");
    assert!(first.resolved);
    let second = loaded.get_one_todo(2).unwrap();
    assert_eq!(second.message, "Write report");
    assert!(!second.resolved);
}

#[test]
fn remove_of_missing_key_is_a_no_op() {
    let mut storage = two_todos();
    storage.remove(5);
    assert_eq!(storage.is_empty(), 2);
    assert_eq!(storage.length(), 2);
    assert_eq!(storage.parse_map_to_text(), "1-false-foo\n2-false-boo");
}

#[test]
fn update_of_missing_key_returns_false() {
    let mut storage = two_todos();
    assert!(!storage.update(99, Todo::new("x".to_string())));
    assert_eq!(storage.length(), 2);
    assert_eq!(storage.parse_map_to_text(), "1-false-foo\n2-false-boo");
}

#[test]
fn update_changes_only_its_key() {
    let mut storage = two_todos();
    let mut done = Todo::new("bar".to_string());
    done.resolved = true;
    assert!(storage.update(2, done));
    assert_eq!(storage.length(), 2);
    assert_eq!(storage.parse_map_to_text(), "1-false-foo\n2-true-bar");
}

#[test]
fn resolve_twice_is_idempotent() {
    let mut storage = two_todos();
    assert!(storage.resolve_one_todo(2));
    let once = storage.parse_map_to_text();
    assert!(storage.resolve_one_todo(2));
    assert_eq!(storage.parse_map_to_text(), once);
    assert_eq!(once, "1-false-foo\n2-true-boo");
}

#[test]
fn resolve_of_missing_key_returns_false() {
    let mut storage = two_todos();
    assert!(!storage.resolve_one_todo(7));
    assert_eq!(storage.parse_map_to_text(), "1-false-foo\n2-false-boo");
}

#[test]
fn get_of_missing_key_is_none() {
    let storage = two_todos();
    assert!(storage.get_one_todo(3).is_none());
    assert!(storage.get_one_todo(0).is_none());
}

#[test]
fn empty_text_gives_empty_store() {
    let mut storage = Todos::new();
    assert!(storage.parse_text_for_todos("").is_ok());
    assert_eq!(storage.is_empty(), 0);
    assert_eq!(storage.length(), 0);
    assert_eq!(storage.parse_map_to_text(), "");
}

#[test]
fn blank_lines_are_skipped() {
    let mut storage = Todos::new();
    assert!(storage.parse_text_for_todos("\n\n3-true-x\n\n").is_ok());
    assert_eq!(keys_of(&storage), vec![3]);
    assert_eq!(storage.length(), 3);
}

#[test]
fn load_orders_keys_and_takes_the_largest_as_counter() {
    let mut storage = Todos::new();
    assert!(storage.parse_text_for_todos("5-false-a\n2-true-b\n9-false-c").is_ok());
    assert_eq!(keys_of(&storage), vec![2, 5, 9]);
    assert_eq!(storage.length(), 9);
    assert_eq!(storage.insert_todo(Todo::new("d".to_string())), 10);
    assert_eq!(
        storage.parse_map_to_text(),
        "2-true-b\n5-false-a\n9-false-c\n10-false-d"
    );
}

#[test]
fn load_keeps_the_first_record_of_a_key() {
    let mut storage = Todos::new();
    assert!(storage.parse_text_for_todos("4-false-first\n4-true-second").is_ok());
    assert_eq!(storage.is_empty(), 1);
    let todo = storage.get_one_todo(4).unwrap();
    assert_eq!(todo.message, "first");
    assert!(!todo.resolved);
}

#[test]
fn load_keeps_present_entries() {
    let mut storage = two_todos();
    assert!(storage.parse_text_for_todos("1-true-other\n7-false-seven").is_ok());
    assert_eq!(storage.get_one_todo(1).unwrap().message, "foo");
    assert_eq!(keys_of(&storage), vec![1, 2, 7]);
    assert_eq!(storage.length(), 7);
}

#[test]
fn message_keeps_its_dashes() {
    let mut storage = Todos::new();
    assert!(storage.parse_text_for_todos("3-true-a-b--c-").is_ok());
    assert_eq!(storage.get_one_todo(3).unwrap().message, "a-b--c-");
    assert_eq!(storage.parse_map_to_text(), "3-true-a-b--c-");
}

#[test]
fn flag_other_than_true_reads_as_false() {
    let mut storage = Todos::new();
    assert!(storage.parse_text_for_todos("1-TRUE-x\n2--y\n3-yes-z").is_ok());
    assert!(!storage.get_one_todo(1).unwrap().resolved);
    assert!(!storage.get_one_todo(2).unwrap().resolved);
    assert!(!storage.get_one_todo(3).unwrap().resolved);
}

#[test]
fn empty_message_is_allowed() {
    let mut storage = Todos::new();
    assert!(storage.parse_text_for_todos("1-true-").is_ok());
    assert_eq!(storage.get_one_todo(1).unwrap().message, "");
}

#[test]
fn bad_key_is_a_parse_error_and_leaves_store() {
    let mut storage = two_todos();
    let r = storage.parse_text_for_todos("3-false-ok\nx1-true-m");
    assert!(matches!(r, Err(TerminalError::ParseErr(IntErrorKind::InvalidDigit))));
    assert_eq!(storage.is_empty(), 2);
    assert_eq!(storage.length(), 2);
    assert_eq!(storage.parse_map_to_text(), "1-false-foo\n2-false-boo");
}

#[test]
fn empty_key_is_a_parse_error() {
    let mut storage = Todos::new();
    let r = storage.parse_text_for_todos("-true-m");
    assert!(matches!(r, Err(TerminalError::ParseErr(IntErrorKind::Empty))));
}

#[test]
fn key_above_u32_is_a_parse_error() {
    let mut storage = Todos::new();
    let r = storage.parse_text_for_todos("4294967296-true-m");
    assert!(matches!(r, Err(TerminalError::ParseErr(IntErrorKind::PosOverflow))));
    assert!(storage.parse_text_for_todos("4294967295-true-m").is_ok());
    assert_eq!(storage.length(), 4294967295);
    assert_eq!(storage.parse_map_to_text(), "4294967295-true-m");
}

#[test]
fn missing_separator_is_not_found() {
    let mut storage = Todos::new();
    assert!(matches!(
        storage.parse_text_for_todos("1-true"),
        Err(TerminalError::NotFound(_))
    ));
    assert!(matches!(
        storage.parse_text_for_todos("5"),
        Err(TerminalError::NotFound(_))
    ));
    assert!(matches!(
        storage.parse_text_for_todos("x"),
        Err(TerminalError::ParseErr(IntErrorKind::InvalidDigit))
    ));
    assert_eq!(storage.is_empty(), 0);
}

#[test]
fn parse_line_reads_all_three_fields() {
    let storage = Todos::new();
    match storage.parse_line_for_todo("12-true-call-mom") {
        Ok((key, message, resolved)) => {
            assert_eq!(key, 12);
            assert_eq!(message, "call-mom");
            assert!(resolved);
        }
        Err(_) => panic!("line should parse"),
    }
    assert!(matches!(
        storage.parse_line_for_todo("12"),
        Err(TerminalError::NotFound(_))
    ));
}

#[test]
fn encode_strips_newlines_from_messages() {
    let mut storage = Todos::new();
    storage.insert_todo(Todo::new("Buy\nmilk\n".to_string()));
    storage.insert_todo(Todo::new("ok".to_string()));
    let text = storage.parse_map_to_text();
    assert_eq!(text, "1-false-Buymilk\n2-false-ok");
    let mut loaded = Todos::new();
    assert!(loaded.parse_text_for_todos(&text).is_ok());
    assert_eq!(loaded.get_one_todo(1).unwrap().message, "Buymilk");
}

#[test]
fn round_trip_keeps_every_entry() {
    let mut storage = Todos::new();
    for i in 0..12 {
        storage.insert_todo(Todo::new(format!("task {i} - part")));
    }
    storage.remove(4);
    storage.resolve_one_todo(10);
    let text = storage.parse_map_to_text();
    let mut loaded = Todos::new();
    assert!(loaded.parse_text_for_todos(&text).is_ok());
    assert_eq!(keys_of(&loaded), keys_of(&storage));
    for (key, todo) in storage.get_collection() {
        let back = loaded.get_one_todo(*key).unwrap();
        assert_eq!(back.message, todo.message);
        assert_eq!(back.resolved, todo.resolved);
    }
    assert_eq!(loaded.length(), 12);
}

#[test]
fn todo_new_is_unresolved_and_shows_its_message() {
    let todo = Todo::new("hello".to_string());
    assert!(!todo.resolved);
    assert_eq!(todo.to_string(), "hello");
    let copy = todo.clone();
    assert_eq!(copy.message, "hello");
}

#[test]
fn error_messages() {
    assert_eq!(
        TerminalError::StdoutErr("broken pipe".to_string()).message_err(),
        "Houve um erro ao tentar exibir mensagem broken pipe"
    );
    assert_eq!(
        TerminalError::StdinErr("closed".to_string()).message_err(),
        "Houve um erro na entrada de dados closed"
    );
    assert_eq!(
        TerminalError::ParseErr(IntErrorKind::InvalidDigit).message_err(),
        "O valor inserido precisa ser um número"
    );
    assert_eq!(
        TerminalError::NotFound("nada".to_string()).message_err(),
        "nada"
    );
}
