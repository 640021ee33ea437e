//! How the progress socket answers what a client sends.
use vstd::prelude::*;

verus! {

/// What arrived from a connected client.
#[derive(Debug, Clone, Copy, PartialEq, Eq, Structural)]
pub enum ClientFrame {
    Text,
    Binary,
    Ping,
    Pong,
    /// A raw frame, which the socket does not support.
    Frame,
    Close,
    /// The client's stream ended.
    Ended,
}

/// What the socket does next.
#[derive(Debug, Clone, Copy, PartialEq, Eq, Structural)]
pub enum SocketStep {
    /// Keep serving: data frames are only logged.
    Continue,
    /// Send a close frame, then stop.
    CloseAndStop,
    /// Stop without sending anything.
    Stop,
}

/// Data and control frames keep the socket open; an unsupported raw frame
/// closes it; a close frame or the end of the stream stops it.
pub fn on_client_frame(frame: ClientFrame) -> (r: SocketStep)
    ensures
        r == match frame {
            ClientFrame::Frame => SocketStep::CloseAndStop,
            ClientFrame::Close | ClientFrame::Ended => SocketStep::Stop,
            _ => SocketStep::Continue,
        },
{
    match frame {
        ClientFrame::Frame => SocketStep::CloseAndStop,
        ClientFrame::Close | ClientFrame::Ended => SocketStep::Stop,
        _ => SocketStep::Continue,
    }
}

} // verus!
