//! Chat message schema and the buffer rendering of a message sequence.

use vstd::prelude::*;

use crate::text::{join_with, views_of};

verus! {

/// The base message type. Messages are the inputs and outputs of chat
/// models.
#[derive(Debug, Clone)]
pub struct BaseMessage {
    /// The string contents of the message.
    pub content: String,
    /// Any additional information.
    pub additional_kwargs: Option<std::collections::HashMap<String, String>>,
}

/// A message from a human.
#[derive(Debug)]
pub struct HumanMessage {
    pub base: BaseMessage,
    /// Whether this message is part of an example conversation.
    pub example: bool,
}

/// A message from a model.
#[derive(Debug)]
pub struct AIMessage {
    pub base: BaseMessage,
    /// Whether this message is part of an example conversation.
    pub example: bool,
}

/// A message priming model behavior, usually passed first.
#[derive(Debug)]
pub struct SystemMessage {
    pub base: BaseMessage,
}

/// A message passing a function's result back to a model.
#[derive(Debug)]
pub struct FunctionMessage {
    pub base: BaseMessage,
    /// The name of the function that was executed.
    pub name: String,
    pub arguments: Option<std::collections::HashMap<String, String>>,
}

/// A message with an arbitrary speaker role.
#[derive(Debug)]
pub struct ChatMessage {
    pub base: BaseMessage,
    /// The speaker / role of the message.
    pub role: String,
}

/// Any message.
#[derive(Debug)]
pub enum Message {
    Human(HumanMessage),
    AI(AIMessage),
    System(SystemMessage),
    Function(FunctionMessage),
    Chat(ChatMessage),
}

/// The one-line rendering of a message: its speaker tag, then its content.
pub open spec fn spec_message_line(m: Message) -> Seq<char> {
    match m {
        Message::Human(hm) => "Human: "@ + hm.base.content@,
        Message::AI(am) => "AI: "@ + am.base.content@,
        Message::System(sm) => "System: "@ + sm.base.content@,
        Message::Function(fm) => "Function: "@ + fm.base.content@,
        Message::Chat(cm) => cm.role@ + ": "@ + cm.base.content@,
    }
}

/// The buffer rendering of a message sequence: one line per message.
pub open spec fn spec_buffer_string(ms: Seq<Message>) -> Seq<char> {
    join_with(ms.map_values(|m: Message| spec_message_line(m)), "\n"@)
}

impl Message {
    /// The one-line rendering of this message.
    pub fn to_buffer_line(&self) -> (r: String)
        ensures
            r@ == spec_message_line(*self),
    {
        match self {
            Message::Human(hm) => {
                let mut s = String::from_str("Human: ");
                s.append(hm.base.content.as_str());
                s
            },
            Message::AI(am) => {
                let mut s = String::from_str("AI: ");
                s.append(am.base.content.as_str());
                s
            },
            Message::System(sm) => {
                let mut s = String::from_str("System: ");
                s.append(sm.base.content.as_str());
                s
            },
            Message::Function(fm) => {
                let mut s = String::from_str("Function: ");
                s.append(fm.base.content.as_str());
                s
            },
            Message::Chat(cm) => {
                let mut s = cm.role.clone();
                s.append(": ");
                s.append(cm.base.content.as_str());
                s
            },
        }
    }
}

/// Render messages one per line and join them with newlines.
pub fn get_buffer_string(messages: Vec<Message>) -> (r: String)
    ensures
        r@ == spec_buffer_string(messages@),
{
    let ghost lines = messages@.map_values(|m: Message| spec_message_line(m));
    let mut string_messages: Vec<String> = Vec::new();
    let mut i: usize = 0;
    while i < messages.len()
        invariant
            0 <= i <= messages@.len(),
            lines == messages@.map_values(|m: Message| spec_message_line(m)),
            string_messages@.len() == i,
            forall|p: int| 0 <= p < i ==> (#[trigger] string_messages@[p])@ == lines[p],
        decreases messages@.len() - i,
    {
        string_messages.push(messages[i].to_buffer_line());
        i += 1;
    }
    let joined = crate::text::join_strings(&string_messages, "\n");
    proof {
        assert(views_of(string_messages@) =~= lines);
    }
    joined
}

} // verus!
