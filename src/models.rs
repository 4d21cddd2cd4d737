//! Per-field change messages and the fields of a row to write.

use vstd::prelude::*;

use crate::timestamp::{parse_spec, TimestampView};

verus! {

/// The type of a message's value.
#[derive(Debug, Clone, Copy, PartialEq, Eq, Structural)]
pub enum ValueType {
    /// No value; named "None" on the wire.
    Null,
    Number,
    String,
}

impl ValueType {
    /// The type named `name`; any unknown name reads as `String`.
    pub fn from_name(name: &str) -> (r: ValueType)
        ensures
            name@ == "None"@ ==> r == ValueType::Null,
            name@ == "Number"@ ==> r == ValueType::Number,
            name@ != "None"@ && name@ != "Number"@ ==> r == ValueType::String,
    {
        proof {
            reveal_strlit("None");
            reveal_strlit("Number");
            assert("Number"@.len() == 6 && "None"@.len() == 4);
        }
        if crate::text::str_eq(name, "None") {
            ValueType::Null
        } else if crate::text::str_eq(name, "Number") {
            ValueType::Number
        } else {
            ValueType::String
        }
    }

    /// The name of the type, as it travels on the wire.
    pub fn to_string(&self) -> (r: String)
        ensures
            *self == ValueType::Null ==> r@ == "None"@,
            *self == ValueType::Number ==> r@ == "Number"@,
            *self == ValueType::String ==> r@ == "String"@,
    {
        match self {
            ValueType::Null => "None".to_owned(),
            ValueType::Number => "Number".to_owned(),
            ValueType::String => "String".to_owned(),
        }
    }
}

/// One field write: `value` for `column` of `row` in `dataset`, at
/// `timestamp` (in canonical string form).
#[derive(Debug)]
pub struct Message {
    pub timestamp: String,
    pub dataset: String,
    pub row: String,
    pub column: String,
    pub value_type: ValueType,
    pub value: String,
}

pub struct MessageView {
    pub timestamp: Seq<char>,
    pub dataset: Seq<char>,
    pub row: Seq<char>,
    pub column: Seq<char>,
    pub value_type: ValueType,
    pub value: Seq<char>,
}

impl View for Message {
    type V = MessageView;

    open spec fn view(&self) -> MessageView {
        MessageView {
            timestamp: self.timestamp@,
            dataset: self.dataset@,
            row: self.row@,
            column: self.column@,
            value_type: self.value_type,
            value: self.value@,
        }
    }
}

impl Message {
    /// A copy of this message.
    pub fn copy(&self) -> (r: Message)
        ensures
            r@ == self@,
    {
        Message {
            timestamp: self.timestamp.clone(),
            dataset: self.dataset.clone(),
            row: self.row.clone(),
            column: self.column.clone(),
            value_type: self.value_type,
            value: self.value.clone(),
        }
    }
}

/// The views of a sequence of messages.
pub open spec fn views(s: Seq<Message>) -> Seq<MessageView> {
    s.map_values(|m: Message| m@)
}

/// The timestamps of a log that parse, in order.
pub open spec fn parsed(log: Seq<MessageView>) -> Seq<TimestampView>
    decreases log.len(),
{
    if log.len() == 0 {
        seq![]
    } else {
        let r = parsed(log.drop_last());
        match parse_spec(log.last().timestamp) {
            Some(t) => r.push(t),
            None => r,
        }
    }
}

pub proof fn lemma_parsed_len(log: Seq<MessageView>)
    ensures
        parsed(log).len() <= log.len(),
    decreases log.len(),
{
    if log.len() > 0 {
        lemma_parsed_len(log.drop_last());
    }
}

/// One field of a row to write; `id` is the row, or `None` for a new row.
#[derive(Debug)]
pub struct RowParam {
    pub id: Option<String>,
    pub column: String,
    pub value_type: ValueType,
    pub value: String,
}

} // verus!
