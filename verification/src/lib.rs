pub mod coordinator;
pub mod engine;
pub mod fetch;
pub mod html;
pub mod resolve;
pub mod page;
pub mod protocol;

use vstd::prelude::*;

verus! {

/// A message on one of the engine's channels: either a payload or the
/// probe signal used by the termination protocol.
#[derive(Debug)]
pub enum Message<T> {
    Finished,
    Msg(T),
}

/// Wraps a payload as a channel message.
pub fn msg<T>(contents: T) -> (m: Message<T>)
    ensures
        m == Message::<T>::Msg(contents),
{
    Message::Msg(contents)
}

} // verus!
