//! Chat messages by role.

use crate::proto::{ChatMessage, MessageView};
use vstd::prelude::*;

verus! {

/// What the model is told to be.
pub fn system(content: &str) -> (res: ChatMessage)
    ensures
        res@ == (MessageView { role: "system"@, content: content@ }),
{
    ChatMessage { role: "system".to_owned(), content: content.to_owned() }
}

/// What the user says.
pub fn user(content: &str) -> (res: ChatMessage)
    ensures
        res@ == (MessageView { role: "user"@, content: content@ }),
{
    ChatMessage { role: "user".to_owned(), content: content.to_owned() }
}

/// What the model said.
pub fn assistant(content: &str) -> (res: ChatMessage)
    ensures
        res@ == (MessageView { role: "assistant"@, content: content@ }),
{
    ChatMessage { role: "assistant".to_owned(), content: content.to_owned() }
}

/// A message says what it was given, in the voice that its name tells.
pub proof fn lemma_messages_say_what_they_are_given(
    content: &str,
    told: ChatMessage,
    asked: ChatMessage,
    answered: ChatMessage,
)
    requires
        call_ensures(system, (content,), told),
        call_ensures(user, (content,), asked),
        call_ensures(assistant, (content,), answered),
    ensures
        told.role@ == "system"@,
        told.content@ == content@,
        asked.role@ == "user"@,
        asked.content@ == content@,
        answered.role@ == "assistant"@,
        answered.content@ == content@,
{
    assert(told@.role == told.role@ && asked@.role == asked.role@ && answered@.role
        == answered.role@);
}

} // verus!
