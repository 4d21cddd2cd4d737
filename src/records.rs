//! The todo record of the client application and how messages write it.

use vstd::prelude::*;

use crate::error::HandlerError;
use crate::models::{Message, MessageView};
use crate::storage::MessageHandler;
use crate::text::{decimal_i8, parse_i8, str_eq};

verus! {

/// The dataset that todo records live in.
pub const TASK_TABLE: &'static str = "todos";

/// A todo: its row id, two text fields and a deletion flag.
#[derive(Debug)]
pub struct Todo {
    pub id: String,
    pub content: String,
    pub todo_type: String,
    pub tombstone: i8,
}

/// The columns of a todo.
#[derive(Debug, Clone, Copy, PartialEq, Eq, Structural)]
pub enum TodoParam {
    Content,
    TodoType,
    Tombstone,
}

pub open spec fn column_of(name: Seq<char>) -> Option<TodoParam> {
    if name == "content"@ {
        Some(TodoParam::Content)
    } else if name == "todo_type"@ {
        Some(TodoParam::TodoType)
    } else if name == "tombstone"@ {
        Some(TodoParam::Tombstone)
    } else {
        None
    }
}

/// A write that a todo of its row takes.
pub open spec fn accepts_write(m: MessageView) -> bool {
    &&& m.dataset == TASK_TABLE@
    &&& column_of(m.column) is Some
    &&& (column_of(m.column) == Some(TodoParam::Tombstone) ==> decimal_i8(m.value) is Some)
}

impl TodoParam {
    /// The column named `value`, if it is one.
    pub fn try_from(value: &str) -> (r: Option<TodoParam>)
        ensures
            r == column_of(value@),
    {
        if str_eq(value, "content") {
            Some(TodoParam::Content)
        } else if str_eq(value, "todo_type") {
            Some(TodoParam::TodoType)
        } else if str_eq(value, "tombstone") {
            Some(TodoParam::Tombstone)
        } else {
            None
        }
    }

    /// The column's name.
    pub fn to_string(&self) -> (r: String)
        ensures
            column_of(r@) == Some(*self),
    {
        proof {
            reveal_strlit("content");
            reveal_strlit("todo_type");
            reveal_strlit("tombstone");
            assert("content"@.len() == 7 && "todo_type"@.len() == 9 && "tombstone"@.len() == 9);
            assert("todo_type"@[2] != "tombstone"@[2]);
        }
        match self {
            TodoParam::Content => "content".to_owned(),
            TodoParam::TodoType => "todo_type".to_owned(),
            TodoParam::Tombstone => "tombstone".to_owned(),
        }
    }
}

impl Todo {
    /// A blank todo for row `id`.
    pub fn new(id: String) -> (r: Self)
        ensures
            r.id@ == id@,
            r.content@ == Seq::<char>::empty(),
            r.todo_type@ == Seq::<char>::empty(),
            r.tombstone == 0,
    {
        Todo { id, content: String::new(), todo_type: String::new(), tombstone: 0 }
    }

    /// Writes the field that `message` addresses. Fails, changing nothing,
    /// on another dataset or row, an unknown column, or a tombstone that is
    /// no `i8`.
    pub fn handle_message(&mut self, message: &Message) -> (r: Result<(), HandlerError>)
        ensures
            message@.dataset != TASK_TABLE@ ==> r == Err::<(), HandlerError>(HandlerError::WrongTable),
            message@.dataset == TASK_TABLE@ && message@.row != old(self).id@ ==> r == Err::<(), HandlerError>(HandlerError::WrongRow),
            message@.dataset == TASK_TABLE@ && message@.row == old(self).id@ && column_of(message@.column) is None
                ==> r == Err::<(), HandlerError>(HandlerError::UnknownColumn),
            message@.dataset == TASK_TABLE@ && message@.row == old(self).id@ && column_of(message@.column) == Some(TodoParam::Tombstone)
                && decimal_i8(message@.value) is None ==> r == Err::<(), HandlerError>(HandlerError::InvalidValue),
            old(self).accepts(message@) ==> r is Ok,
            r is Err ==> *final(self) == *old(self),
            r is Ok ==> final(self).reflects(message@),
            final(self).id == old(self).id,
            forall|m: MessageView| m.column != message@.column ==> #[trigger] final(self).reflects(m) == old(self).reflects(m),
    {
        if !str_eq(message.dataset.as_str(), TASK_TABLE) {
            return Err(HandlerError::WrongTable);
        }
        if !(message.row == self.id) {
            return Err(HandlerError::WrongRow);
        }
        match TodoParam::try_from(message.column.as_str()) {
            None => Err(HandlerError::UnknownColumn),
            Some(TodoParam::Content) => {
                self.content = message.value.clone();
                Ok(())
            },
            Some(TodoParam::TodoType) => {
                self.todo_type = message.value.clone();
                Ok(())
            },
            Some(TodoParam::Tombstone) => match parse_i8(message.value.as_str()) {
                Some(v) => {
                    self.tombstone = v;
                    Ok(())
                },
                None => Err(HandlerError::InvalidValue),
            },
        }
    }

    /// Whether this todo takes the write `m`: its dataset and row, a known
    /// column, and for the tombstone a value that reads as an `i8`.
    pub open spec fn accepts(&self, m: MessageView) -> bool {
        m.row == self.id@ && accepts_write(m)
    }

    /// Whether this todo holds the value that `m` writes to its column.
    pub open spec fn reflects(&self, m: MessageView) -> bool {
        match column_of(m.column) {
            Some(TodoParam::Content) => self.content@ == m.value,
            Some(TodoParam::TodoType) => self.todo_type@ == m.value,
            Some(TodoParam::Tombstone) => decimal_i8(m.value) == Some(self.tombstone),
            None => false,
        }
    }
}

impl MessageHandler for Todo {
    open spec fn row_id(&self) -> Seq<char> {
        self.id@
    }

    open spec fn reflects(&self, m: MessageView) -> bool {
        Todo::reflects(self, m)
    }

    open spec fn table() -> Seq<char> {
        TASK_TABLE@
    }

    open spec fn accepts(&self, m: MessageView) -> bool {
        Todo::accepts(self, m)
    }

    open spec fn accepts_new(m: MessageView) -> bool {
        accepts_write(m)
    }

    fn from_message(message: &Message) -> (r: Self) {
        Todo::new(message.row.clone())
    }

    fn handle_message(&mut self, message: &Message) -> (r: Result<(), HandlerError>) {
        Todo::handle_message(self, message)
    }

    fn table_name() -> (r: String) {
        TASK_TABLE.to_owned()
    }
}

} // verus!
