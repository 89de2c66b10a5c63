//! A message as it is kept: what was written, and the same made fit to be
//! kept.

use vstd::prelude::*;

verus! {

/// A message: its text as it was written, the text as it is kept, who wrote
/// it and in which room.
pub struct Message {
    pub content: String,
    pub sanitized_content: String,
    pub sender: String,
    pub room_id: String,
}

/// A message over text.
pub struct MessageView {
    pub content: Seq<char>,
    pub sanitized_content: Seq<char>,
    pub sender: Seq<char>,
    pub room_id: Seq<char>,
}

impl View for Message {
    type V = MessageView;

    open spec fn view(&self) -> MessageView {
        MessageView {
            content: self.content@,
            sanitized_content: self.sanitized_content@,
            sender: self.sender@,
            room_id: self.room_id@,
        }
    }
}

/// A text as it is kept. Nothing is taken out of a text yet: it is kept as
/// it was written.
pub open spec fn sanitized(content: Seq<char>) -> Seq<char> {
    content
}

impl Message {
    /// Makes a text fit to be kept.
    pub fn sanitize_content(content: &String) -> (clean: String)
        ensures
            clean@ == sanitized(content@),
    {
        content.clone()
    }

    /// Makes the kept text anew from the text as it was written, and leaves
    /// the rest of the message as it is.
    pub fn re_sanitize(&mut self)
        ensures
            final(self)@ == (MessageView {
                sanitized_content: sanitized(old(self)@.content),
                ..old(self)@
            }),
    {
        self.sanitized_content = Message::sanitize_content(&self.content);
    }
}

} // verus!
