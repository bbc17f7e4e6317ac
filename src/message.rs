use vstd::prelude::*;
use crate::client::{clock_label, decimal};

verus! {

/// A joined user. `name` is the identifying key; `id` is an opaque tag.
#[derive(Clone, Debug)]
pub struct User {
    pub id: String,
    pub name: String,
}

impl View for User {
    /// The user as `(id, name)`.
    type V = (Seq<char>, Seq<char>);

    open spec fn view(&self) -> (Seq<char>, Seq<char>) {
        (self.id@, self.name@)
    }
}

impl User {
    pub fn new(id: String, name: String) -> (r: User)
        ensures
            r.id@ == id@,
            r.name@ == name@,
    {
        User { id, name }
    }

    /// A copy that holds the same text.
    pub fn duplicate(&self) -> (r: User)
        ensures
            r@ == self@,
    {
        User { id: self.id.clone(), name: self.name.clone() }
    }
}

/// One posted message. `time` is display text and is carried through as is.
#[derive(Clone, Debug, PartialEq, Eq)]
pub struct ChatMessage {
    pub from: String,
    pub msg: String,
    pub time: String,
}

impl View for ChatMessage {
    /// The message as `(from, msg, time)`.
    type V = (Seq<char>, Seq<char>, Seq<char>);

    open spec fn view(&self) -> (Seq<char>, Seq<char>, Seq<char>) {
        (self.from@, self.msg@, self.time@)
    }
}

impl ChatMessage {
    pub fn new(from: String, msg: String, time: String) -> (r: ChatMessage)
        ensures
            r@ == (from@, msg@, time@),
    {
        ChatMessage { from, msg, time }
    }

    /// An independent copy with the same text, one per delivery.
    pub fn duplicate(&self) -> (r: ChatMessage)
        ensures
            r@ == self@,
    {
        ChatMessage { from: self.from.clone(), msg: self.msg.clone(), time: self.time.clone() }
    }

    /// A message from `from` with text `msg`, stamped with the time label of
    /// `hour` and `minute`.
    pub fn stamped(from: String, msg: String, hour: u32, minute: u32) -> (r: ChatMessage)
        ensures
            r@ == (from@, msg@, decimal(hour as nat) + ":"@ + decimal(minute as nat)),
    {
        let time = clock_label(hour, minute);
        ChatMessage::new(from, msg, time)
    }
}

/// The answer to a join: `error` is 0 on success and 1 when the name is taken.
#[derive(Clone, Debug)]
pub struct JoinResponse {
    pub error: i32,
    pub msg: String,
}

impl JoinResponse {
    /// Whether the join was accepted.
    pub fn is_success(&self) -> (r: bool)
        ensures
            r == (self.error == 0),
    {
        self.error == 0
    }
}

} // verus!
