//! The prompt-value capability consumed by language models.

use vstd::prelude::*;

use crate::message::BaseMessage;

verus! {

/// A value that can be rendered as a prompt, either as one string or as a
/// list of messages.
pub trait PromptValue: Send {
    /// The prompt as a single string.
    fn to_string(&self) -> String;

    /// The prompt as a list of messages.
    fn to_messages(&self) -> Vec<BaseMessage>;
}

} // verus!
