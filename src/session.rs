//! The decisions of the interactive prompt: a session holds the store and what it
//! waits for, takes one line of input at a time, and answers with what to show and
//! whether the store must be written out. Reading, writing and rendering are left
//! to the caller.
use crate::codec::{chars_of, key_result, parse_key_text};
use crate::terminal::TerminalError;
use crate::todo::{Todo, TodoV};
use crate::todos::{has_key, key_index, map_of, TodoStorage, Todos};
use vstd::prelude::*;
use vstd::string::*;

verus! {

/// A choice made at the menu.
#[derive(Clone, Copy, Debug, PartialEq, Eq, Structural)]
pub enum UserCommand {
    Insert,
    ShowTodos,
    Resolve,
    Update,
    Delete,
    Exit,
    Other,
}

/// The command that a menu answer selects: `1` to `5` and `0`; anything else is `Other`.
pub open spec fn command_of(s: Seq<char>) -> UserCommand {
    if s.len() != 1 {
        UserCommand::Other
    } else if s[0] == '1' {
        UserCommand::Insert
    } else if s[0] == '2' {
        UserCommand::ShowTodos
    } else if s[0] == '3' {
        UserCommand::Resolve
    } else if s[0] == '4' {
        UserCommand::Update
    } else if s[0] == '5' {
        UserCommand::Delete
    } else if s[0] == '0' {
        UserCommand::Exit
    } else {
        UserCommand::Other
    }
}

impl UserCommand {
    /// The command that the (already trimmed) menu answer `choice` selects.
    pub fn from_choice(choice: &str) -> (r: UserCommand)
        ensures
            r == command_of(choice@),
    {
        let chars = chars_of(choice);
        if chars.len() != 1 {
            return UserCommand::Other;
        }
        let c = chars[0];
        if c == '1' {
            UserCommand::Insert
        } else if c == '2' {
            UserCommand::ShowTodos
        } else if c == '3' {
            UserCommand::Resolve
        } else if c == '4' {
            UserCommand::Update
        } else if c == '5' {
            UserCommand::Delete
        } else if c == '0' {
            UserCommand::Exit
        } else {
            UserCommand::Other
        }
    }
}

/// An action on one chosen task.
#[derive(Clone, Copy, Debug, PartialEq, Eq, Structural)]
pub enum Task {
    Resolve,
    Update,
    Delete,
}

/// What the session waits for.
#[derive(Clone, Copy, Debug, PartialEq, Eq, Structural)]
pub enum Prompt {
    /// A menu choice.
    Command,
    /// The text of a new task.
    NewTodo,
    /// The key of the task to act on.
    Key(Task),
    /// The text that replaces the task under the key.
    Replacement(u32),
    /// Nothing: the session is over.
    Closed,
}

/// One thing to show the user.
pub enum Notice {
    /// The menu of commands.
    Menu,
    /// A request for the text of a task.
    AskNewTodo,
    /// A request for the key of the task to act on.
    AskKey(Task),
    /// Every task, in key order, with its key when the flag is set.
    List(bool),
    /// One task.
    Show(Todo),
    /// The action on the chosen task was carried out.
    Done(Task),
    /// The menu answer selects no command.
    Invalid,
    /// An error to report.
    Error(TerminalError),
    /// The session is over.
    Farewell,
}

/// The answer to one line of input.
pub struct Reply {
    /// What to show, in order.
    pub notices: Vec<Notice>,
    /// Whether the store changed and must be written out.
    pub save: bool,
}

/// The store and the prompt of an interactive session.
pub struct Session {
    store: Todos,
    prompt: Prompt,
}

impl Session {
    pub closed spec fn todos(&self) -> Todos {
        self.store
    }

    pub closed spec fn stage(&self) -> Prompt {
        self.prompt
    }

    /// A task is chosen only from a non-empty store, and a replacement is asked for
    /// only for a key that is present.
    pub open spec fn wf(&self) -> bool {
        &&& self.todos().wf()
        &&& self.stage() is Key ==> self.todos().entries().len() > 0
        &&& self.stage() matches Prompt::Replacement(k) ==> has_key(self.todos().entries(), k)
    }

    /// A session over `store`, waiting for a menu choice.
    pub fn new(store: Todos) -> (r: Session)
        requires
            store.wf(),
        ensures
            r.wf(),
            r.todos() == store,
            r.stage() == Prompt::Command,
    {
        Session { store, prompt: Prompt::Command }
    }

    /// The store.
    pub fn store(&self) -> (r: &Todos)
        ensures
            *r == self.todos(),
    {
        &self.store
    }

    /// What the session waits for.
    pub fn prompt(&self) -> (r: Prompt)
        ensures
            r == self.stage(),
    {
        self.prompt
    }
}

/// The task that a menu command acts on, for the commands that choose a task.
pub open spec fn task_of(c: UserCommand) -> Task {
    match c {
        UserCommand::Resolve => Task::Resolve,
        UserCommand::Update => Task::Update,
        _ => Task::Delete,
    }
}

/// Whether `n` is a report of an absent thing followed by `rest`.
pub open spec fn reports_absent(n: Seq<Notice>, rest: Seq<Notice>) -> bool {
    &&& n.len() == rest.len() + 1
    &&& n[0] matches Notice::Error(TerminalError::NotFound(_))
    &&& n.skip(1) == rest
}

/// Whether `n` shows the task `t` first, followed by `rest`.
pub open spec fn shows_first(n: Seq<Notice>, t: TodoV, rest: Seq<Notice>) -> bool {
    &&& n.len() == rest.len() + 1
    &&& (n[0] matches Notice::Show(shown) && shown@ == t)
    &&& n.skip(1) == rest
}

/// How a session answers the line `input`: from `before`, it goes to `after` and replies `r`.
pub open spec fn answers(before: Session, input: Seq<char>, after: Session, r: Reply) -> bool {
    let s0 = before.todos().entries();
    let s1 = after.todos().entries();
    let c0 = before.todos().next_id();
    let c1 = after.todos().next_id();
    let n = r.notices@;
    let kept = s1 == s0 && c1 == c0 && !r.save;
    match before.stage() {
        Prompt::Command => match command_of(input) {
            UserCommand::Insert => kept && after.stage() == Prompt::NewTodo && n == seq![
                Notice::AskNewTodo,
            ],
            UserCommand::ShowTodos => kept && after.stage() == Prompt::Command && n == seq![
                Notice::List(false),
                Notice::Menu,
            ],
            UserCommand::Exit => kept && after.stage() == Prompt::Closed && n == seq![
                Notice::Farewell,
            ],
            UserCommand::Other => kept && after.stage() == Prompt::Command && n == seq![
                Notice::Invalid,
                Notice::Menu,
            ],
            _ => {
                let task = task_of(command_of(input));
                kept && if s0.len() == 0 {
                    after.stage() == Prompt::Command && reports_absent(n, seq![Notice::Menu])
                } else {
                    after.stage() == Prompt::Key(task) && n == seq![
                        Notice::List(true),
                        Notice::AskKey(task),
                    ]
                }
            },
        },
        Prompt::NewTodo => after.stage() == Prompt::Command && if c0 < u32::MAX {
            &&& r.save
            &&& c1 == c0 + 1
            &&& s1 == s0.push((c1, (input, false)))
            &&& shows_first(n, (input, false), seq![Notice::Menu])
        } else {
            kept && reports_absent(n, seq![Notice::Menu])
        },
        Prompt::Key(task) => match key_result(input) {
            Err(e) => kept && after.stage() == before.stage() && n == seq![
                Notice::Error(TerminalError::ParseErr(e)),
                Notice::List(true),
                Notice::AskKey(task),
            ],
            Ok(k) => if !has_key(s0, k) {
                kept && after.stage() == before.stage() && reports_absent(
                    n,
                    seq![Notice::List(true), Notice::AskKey(task)],
                )
            } else {
                let t = map_of(s0)[k];
                match task {
                    Task::Update => kept && after.stage() == Prompt::Replacement(k) && shows_first(
                        n,
                        t,
                        seq![Notice::AskNewTodo],
                    ),
                    Task::Delete => {
                        &&& r.save
                        &&& after.stage() == Prompt::Command
                        &&& c1 == c0
                        &&& s1 == s0.remove(key_index(s0, k))
                        &&& shows_first(n, t, seq![Notice::Done(Task::Delete), Notice::Menu])
                    },
                    Task::Resolve => {
                        &&& r.save
                        &&& after.stage() == Prompt::Command
                        &&& c1 == c0
                        &&& s1 == s0.update(key_index(s0, k), (k, (t.0, true)))
                        &&& shows_first(n, t, seq![Notice::Done(Task::Resolve), Notice::Menu])
                    },
                }
            },
        },
        Prompt::Replacement(k) => {
            &&& r.save
            &&& after.stage() == Prompt::Command
            &&& c1 == c0
            &&& s1 == s0.update(key_index(s0, k), (k, (input, false)))
            &&& n == seq![Notice::Done(Task::Update), Notice::Menu]
        },
        Prompt::Closed => kept && after.stage() == Prompt::Closed && n.len() == 0,
    }
}

impl Session {
    /// Answers one line of input (without its line break).
    pub fn handle(&mut self, input: &str) -> (r: Reply)
        requires
            old(self).wf(),
        ensures
            final(self).wf(),
            answers(*old(self), input@, *final(self), r),
    {
        let mut notices: Vec<Notice> = Vec::new();
        match self.prompt {
            Prompt::Command => {
                let command = UserCommand::from_choice(input);
                match command {
                    UserCommand::Insert => {
                        self.prompt = Prompt::NewTodo;
                        notices.push(Notice::AskNewTodo);
                    },
                    UserCommand::ShowTodos => {
                        notices.push(Notice::List(false));
                        notices.push(Notice::Menu);
                        assert(notices@ =~= seq![Notice::List(false), Notice::Menu]);
                    },
                    UserCommand::Exit => {
                        self.prompt = Prompt::Closed;
                        notices.push(Notice::Farewell);
                    },
                    UserCommand::Other => {
                        notices.push(Notice::Invalid);
                        notices.push(Notice::Menu);
                        assert(notices@ =~= seq![Notice::Invalid, Notice::Menu]);
                    },
                    _ => {
                        let task = match command {
                            UserCommand::Resolve => Task::Resolve,
                            UserCommand::Update => Task::Update,
                            _ => Task::Delete,
                        };
                        if self.store.is_empty() == 0 {
                            notices.push(
                                Notice::Error(
                                    TerminalError::NotFound(
                                        String::from_str("A sua coleção de TODOs esta vazia"),
                                    ),
                                ),
                            );
                            notices.push(Notice::Menu);
                            assert(notices@.skip(1) =~= seq![Notice::Menu]);
                        } else {
                            self.prompt = Prompt::Key(task);
                            notices.push(Notice::List(true));
                            notices.push(Notice::AskKey(task));
                            assert(notices@ =~= seq![Notice::List(true), Notice::AskKey(task)]);
                        }
                    },
                }
                Reply { notices, save: false }
            },
            Prompt::NewTodo => {
                self.prompt = Prompt::Command;
                let todo = Todo::new(String::from_str(input));
                if self.store.length() < u32::MAX {
                    notices.push(Notice::Show(todo.clone()));
                    notices.push(Notice::Menu);
                    self.store.insert_todo(todo);
                    assert(notices@.skip(1) =~= seq![Notice::Menu]);
                    Reply { notices, save: true }
                } else {
                    notices.push(
                        Notice::Error(
                            TerminalError::NotFound(
                                String::from_str("Não há mais chaves livres para novos TODOs"),
                            ),
                        ),
                    );
                    notices.push(Notice::Menu);
                    assert(notices@.skip(1) =~= seq![Notice::Menu]);
                    Reply { notices, save: false }
                }
            },
            Prompt::Key(task) => {
                match parse_key_text(input) {
                    Err(e) => {
                        notices.push(Notice::Error(TerminalError::ParseErr(e)));
                        notices.push(Notice::List(true));
                        notices.push(Notice::AskKey(task));
                        assert(notices@ =~= seq![
                            Notice::Error(TerminalError::ParseErr(e)),
                            Notice::List(true),
                            Notice::AskKey(task),
                        ]);
                        Reply { notices, save: false }
                    },
                    Ok(k) => match self.store.get_one_todo(k) {
                        None => {
                            notices.push(
                                Notice::Error(
                                    TerminalError::NotFound(
                                        String::from_str("❗ O valor consultado não existe ❗"),
                                    ),
                                ),
                            );
                            notices.push(Notice::List(true));
                            notices.push(Notice::AskKey(task));
                            assert(notices@.skip(1) =~= seq![Notice::List(true), Notice::AskKey(task)]);
                            Reply { notices, save: false }
                        },
                        Some(found) => {
                            notices.push(Notice::Show(found));
                            match task {
                                Task::Update => {
                                    self.prompt = Prompt::Replacement(k);
                                    notices.push(Notice::AskNewTodo);
                                    assert(notices@.skip(1) =~= seq![Notice::AskNewTodo]);
                                    Reply { notices, save: false }
                                },
                                Task::Delete => {
                                    self.store.remove(k);
                                    self.prompt = Prompt::Command;
                                    notices.push(Notice::Done(Task::Delete));
                                    notices.push(Notice::Menu);
                                    assert(notices@.skip(1) =~= seq![Notice::Done(Task::Delete), Notice::Menu]);
                                    Reply { notices, save: true }
                                },
                                Task::Resolve => {
                                    self.store.resolve_one_todo(k);
                                    self.prompt = Prompt::Command;
                                    notices.push(Notice::Done(Task::Resolve));
                                    notices.push(Notice::Menu);
                                    assert(notices@.skip(1) =~= seq![Notice::Done(Task::Resolve), Notice::Menu]);
                                    Reply { notices, save: true }
                                },
                            }
                        },
                    },
                }
            },
            Prompt::Replacement(k) => {
                self.store.update(k, Todo::new(String::from_str(input)));
                self.prompt = Prompt::Command;
                notices.push(Notice::Done(Task::Update));
                notices.push(Notice::Menu);
                assert(notices@ =~= seq![Notice::Done(Task::Update), Notice::Menu]);
                Reply { notices, save: true }
            },
            Prompt::Closed => Reply { notices, save: false },
        }
    }
}

} // verus!
