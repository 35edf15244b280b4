use vstd::prelude::*;

verus! {

/// The mathematical value of a task: its message as characters and whether it is done.
pub type TodoV = (Seq<char>, bool);

/// A single task: a text message and a flag telling whether it is resolved.
pub struct Todo {
    pub message: String,
    pub resolved: bool,
}

/// The mathematical value of a sequence of keyed tasks.
pub open spec fn view_entries(s: Seq<(u32, Todo)>) -> Seq<(u32, TodoV)> {
    s.map_values(|e: (u32, Todo)| (e.0, e.1@))
}

impl View for Todo {
    type V = TodoV;

    open spec fn view(&self) -> TodoV {
        (self.message@, self.resolved)
    }
}

impl Todo {
    /// A new, unresolved task holding `todo` as its message.
    pub fn new(todo: String) -> (r: Self)
        ensures
            r.message == todo,
            r@ == (todo@, false),
    {
        Self { message: todo, resolved: false }
    }

    /// The task's message, as it is shown to a user.
    pub fn to_string(&self) -> (r: String)
        ensures
            r@ == self.message@,
    {
        self.message.clone()
    }
}

impl Clone for Todo {
    fn clone(&self) -> (r: Self)
        ensures
            r == *self,
    {
        Todo { message: self.message.clone(), resolved: self.resolved }
    }
}

} // verus!
