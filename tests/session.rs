use todo_list::codec::{parse_key_text, IntErrorKind};
use todo_list::session::{Notice, Prompt, Session, Task, UserCommand};
use todo_list::terminal::TerminalError;
use todo_list::todo::Todo;
use todo_list::todos::{TodoStorage, Todos};

fn kinds(notices: &[Notice]) -> Vec<String> {
    notices
        .iter()
        .map(|n| match n {
            Notice::Menu => "menu".to_string(),
            Notice::AskNewTodo => "ask-new".to_string(),
            Notice::AskKey(t) => format!("ask-key {t:?}"),
            Notice::List(k) => format!("list {k}"),
            Notice::Show(t) => format!("show {}", t.message),
            Notice::Done(t) => format!("done {t:?}"),
            Notice::Invalid => "invalid".to_string(),
            Notice::Error(TerminalError::NotFound(m)) => format!("not-found {m}"),
            Notice::Error(TerminalError::ParseErr(k)) => format!("parse {k:?}"),
            Notice::Error(_) => "io".to_string(),
            Notice::Farewell => "bye".to_string(),
        })
        .collect()
}

fn session_with_two() -> Session {
    let mut store = Todos::new();
    store.insert_todo(Todo::new("foo".to_string()));
    store.insert_todo(Todo::new("boo".to_string()));
    Session::new(store)
}

#[test]
fn menu_choices_select_commands() {
    assert_eq!(UserCommand::from_choice("1"), UserCommand::Insert);
    assert_eq!(UserCommand::from_choice("2"), UserCommand::ShowTodos);
    assert_eq!(UserCommand::from_choice("3"), UserCommand::Resolve);
    assert_eq!(UserCommand::from_choice("4"), UserCommand::Update);
    assert_eq!(UserCommand::from_choice("5"), UserCommand::Delete);
    assert_eq!(UserCommand::from_choice("0"), UserCommand::Exit);
    assert_eq!(UserCommand::from_choice("6"), UserCommand::Other);
    assert_eq!(UserCommand::from_choice("12"), UserCommand::Other);
    assert_eq!(UserCommand::from_choice(""), UserCommand::Other);
}

#[test]
fn key_text_reads_decimal_numbers() {
    assert_eq!(parse_key_text("0"), Ok(0));
    assert_eq!(parse_key_text("007"), Ok(7));
    assert_eq!(parse_key_text("4294967295"), Ok(4294967295));
    assert_eq!(parse_key_text("4294967296"), Err(IntErrorKind::PosOverflow));
    assert_eq!(parse_key_text(""), Err(IntErrorKind::Empty));
    assert_eq!(parse_key_text("+1"), Err(IntErrorKind::InvalidDigit));
    assert_eq!(parse_key_text("1 "), Err(IntErrorKind::InvalidDigit));
}

#[test]
fn insert_through_the_prompt() {
    let mut session = Session::new(Todos::new());
    let reply = session.handle("1");
    assert!(!reply.save);
    assert_eq!(kinds(&reply.notices), vec!["ask-new"]);
    assert_eq!(session.prompt(), Prompt::NewTodo);
    let reply = session.handle("Buy milk");
    assert!(reply.save);
    assert_eq!(kinds(&reply.notices), vec!["show Buy milk", "menu"]);
    assert_eq!(session.prompt(), Prompt::Command);
    assert_eq!(session.store().parse_map_to_text(), "1-false-Buy milk");
}

#[test]
fn task_commands_on_empty_store_report_it() {
    let mut session = Session::new(Todos::new());
    for choice in ["3", "4", "5"] {
        let reply = session.handle(choice);
        assert!(!reply.save);
        assert_eq!(
            kinds(&reply.notices),
            vec!["not-found A sua coleção de TODOs esta vazia", "menu"]
        );
        assert_eq!(session.prompt(), Prompt::Command);
    }
}

#[test]
fn update_through_the_prompt() {
    let mut session = session_with_two();
    let reply = session.handle("4");
    assert_eq!(kinds(&reply.notices), vec!["list true", "ask-key Update"]);
    assert_eq!(session.prompt(), Prompt::Key(Task::Update));

    let reply = session.handle("x");
    assert_eq!(
        kinds(&reply.notices),
        vec!["parse InvalidDigit", "list true", "ask-key Update"]
    );
    let reply = session.handle("9");
    assert_eq!(
        kinds(&reply.notices),
        vec!["not-found ❗ O valor consultado não existe ❗", "list true", "ask-key Update"]
    );
    assert_eq!(session.prompt(), Prompt::Key(Task::Update));

    let reply = session.handle("1");
    assert!(!reply.save);
    assert_eq!(kinds(&reply.notices), vec!["show foo", "ask-new"]);
    assert_eq!(session.prompt(), Prompt::Replacement(1));

    let reply = session.handle("boo");
    assert!(reply.save);
    assert_eq!(kinds(&reply.notices), vec!["done Update", "menu"]);
    assert_eq!(session.store().parse_map_to_text(), "1-false-boo\n2-false-boo");
    assert_eq!(session.store().length(), 2);
}

#[test]
fn resolve_and_delete_through_the_prompt() {
    let mut session = session_with_two();
    session.handle("3");
    let reply = session.handle("1");
    assert!(reply.save);
    assert_eq!(kinds(&reply.notices), vec!["show foo", "done Resolve", "menu"]);
    assert_eq!(session.store().parse_map_to_text(), "1-true-foo\n2-false-boo");

    session.handle("5");
    let reply = session.handle("1");
    assert!(reply.save);
    assert_eq!(kinds(&reply.notices), vec!["show foo", "done Delete", "menu"]);
    assert_eq!(session.store().parse_map_to_text(), "2-false-boo");
    assert_eq!(session.prompt(), Prompt::Command);
}

#[test]
fn show_other_and_exit() {
    let mut session = session_with_two();
    assert_eq!(kinds(&session.handle("2").notices), vec!["list false", "menu"]);
    assert_eq!(kinds(&session.handle("7").notices), vec!["invalid", "menu"]);
    let reply = session.handle("0");
    assert_eq!(kinds(&reply.notices), vec!["bye"]);
    assert_eq!(session.prompt(), Prompt::Closed);
    let reply = session.handle("1");
    assert!(reply.notices.is_empty());
    assert!(!reply.save);
    assert_eq!(session.prompt(), Prompt::Closed);
}
