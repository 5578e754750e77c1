//! What is sent over the socket that connects a page with the server.

use vstd::prelude::*;

use crate::state::{MarkdownState, ServerMessage};
#[allow(unused_imports)]
use crate::state::MessageView;
use crate::text::from_utf8_lossy;

verus! {

/// Why no message came out of the channel.
pub enum RecvError {
    /// No one will send any more.
    Closed,
    /// The receiver was too slow and has missed this many messages.
    Lagged(u64),
}

/// What to do next for a connected page.
pub enum WsAction {
    Forward(ServerMessage),
    Stop,
}

/// What to do with what came out of the channel. A client that stalls (laptop
/// asleep, slow socket) falls behind and misses messages; one reload makes up
/// for all of them, so that the page does not stay frozen.
pub fn next_action(recv: Result<ServerMessage, RecvError>) -> (action: WsAction)
    ensures
        action == (match recv {
            Ok(message) => WsAction::Forward(message),
            Err(RecvError::Lagged(_)) => WsAction::Forward(ServerMessage::Reload),
            Err(RecvError::Closed) => WsAction::Stop,
        }),
{
    match recv {
        Ok(message) => WsAction::Forward(message),
        Err(RecvError::Lagged(_)) => WsAction::Forward(ServerMessage::Reload),
        Err(RecvError::Closed) => WsAction::Stop,
    }
}

/// What a page is told as soon as it connects: the workspace that is open, if
/// the server is one that opens workspaces on request.
pub fn initial_message(state: &MarkdownState) -> (message: Option<ServerMessage>)
    ensures
        match message {
            Some(m) => state@.daemon_mode && state@.base_dir.len() > 0 && m@
                == (MessageView::WorkspaceChanged {
                base_dir: crate::text::lossy_text(state@.base_dir),
                file: None,
            }),
            None => !state@.daemon_mode || state@.base_dir.len() == 0,
        },
{
    if state.daemon_mode && state.has_workspace() {
        Some(
            ServerMessage::WorkspaceChanged {
                base_dir: from_utf8_lossy(state.base_dir.as_slice()),
                file: None,
            },
        )
    } else {
        None
    }
}

/// What came from the page.
pub enum ClientFrame {
    Text,
    Close,
    /// Any other frame, or an error.
    Other,
}

/// Whether what came from the page is the last that is read from it.
pub fn ends_reading(frame: &ClientFrame) -> (r: bool)
    ensures
        r == (*frame is Close),
{
    match frame {
        ClientFrame::Close => true,
        _ => false,
    }
}

/// How sending a message to the page ended.
pub enum Delivery {
    Sent,
    /// The message could not be written as text and was dropped.
    Dropped,
    /// The socket is gone.
    Broken,
}

/// Whether no further message is sent to the page.
pub fn ends_sending(delivery: &Delivery) -> (r: bool)
    ensures
        r == (*delivery is Broken),
{
    match delivery {
        Delivery::Broken => true,
        _ => false,
    }
}

/// The two halves of a connection.
#[derive(Clone, Copy, Debug, PartialEq, Eq, Structural)]
pub enum SocketTask {
    Reading,
    Sending,
}

/// The half that is to be stopped when one has finished: else it would keep
/// the socket and its subscription.
pub fn task_to_abort(finished: SocketTask) -> (other: SocketTask)
    ensures
        other != finished,
{
    match finished {
        SocketTask::Reading => SocketTask::Sending,
        SocketTask::Sending => SocketTask::Reading,
    }
}

} // verus!
