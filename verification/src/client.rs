use vstd::prelude::*;
use crate::text::{chars_of, contains_char, contains_chars, seq_contains};

verus! {

/// What a message of the server means to the client.
#[derive(Clone, Copy, Eq, PartialEq, Debug, Structural)]
pub enum ServerReply {
    /// The message carries a board (it holds a '{').
    BoardUpdate,
    /// The game starts (the message holds "Game").
    GameStarts,
    /// Anything else; the client asks its user for the next line.
    Other,
}

/// What the server's message `input` means to the client.
pub fn classify_reply(input: &str) -> (r: ServerReply)
    ensures
        r == (if input@.contains('{') {
            ServerReply::BoardUpdate
        } else if seq_contains(input@, "Game"@) {
            ServerReply::GameStarts
        } else {
            ServerReply::Other
        }),
{
    let m = chars_of(input);
    if contains_char(&m, '{') {
        ServerReply::BoardUpdate
    } else if contains_chars(&m, &chars_of("Game")) {
        ServerReply::GameStarts
    } else {
        ServerReply::Other
    }
}

} // verus!
