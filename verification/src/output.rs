//! Model output schema.

use vstd::prelude::*;

use crate::message::BaseMessage;

verus! {

/// One generated output.
#[derive(Debug, Clone)]
pub struct Generation {
    /// Generated text output.
    pub text: String,
    /// Raw response details from the provider, such as the reason for
    /// finishing.
    pub generation_info: Option<std::collections::HashMap<String, String>>,
}

/// One generated chat output.
#[derive(Debug, Clone)]
pub struct ChatGeneration {
    pub base: Generation,
    pub message: BaseMessage,
}

/// The result of a chat model call: candidate generations and any
/// provider-specific output.
#[derive(Debug, Clone)]
pub struct ChatResult {
    /// Candidate generations for one input.
    pub generations: Vec<ChatGeneration>,
    pub llm_output: Option<std::collections::HashMap<String, String>>,
}

} // verus!
