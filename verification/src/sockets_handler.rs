use vstd::prelude::*;

use crate::direction::{chunk_bytes, Direction};

verus! {

/// One of the two sockets of a proxied connection.
#[derive(Debug, Clone, Copy)]
pub enum Side {
    Server,
    Client,
}

/// Which of the two sockets have reached end of stream.
#[derive(Debug, Clone, Copy)]
pub enum SocketState {
    ServerClosed,
    ClientClosed,
    AllOpen,
    AllClosed,
}

/// What polling one socket for reading gave: `Ready(n)` with `n` bytes
/// placed at the start of the read buffer (0 at end of stream), or
/// `NotReady` when nothing is available yet.
#[derive(Debug, Clone, Copy)]
pub enum ReadEvent {
    Ready(usize),
    NotReady,
}

/// What the pump does after one read event: hand out an item, end the
/// stream, wait to be polled again, or go on to poll the server socket.
#[derive(Debug)]
pub enum PollAction {
    Item(Direction<Vec<u8>>),
    Finish,
    Wait,
    PollServer,
}

/// The state after the socket on `side` reports end of stream, and whether
/// the stream of traffic then ends. The first socket to close is noted;
/// when the other one closes too, both are closed and the stream ends.
pub open spec fn closed_transition(state: SocketState, side: Side) -> (SocketState, bool) {
    match (state, side) {
        (SocketState::AllOpen, Side::Client) => (SocketState::ClientClosed, false),
        (SocketState::ClientClosed, Side::Client) => (SocketState::ClientClosed, false),
        (SocketState::ServerClosed, Side::Client) => (SocketState::AllClosed, true),
        (SocketState::AllOpen, Side::Server) => (SocketState::ServerClosed, false),
        (SocketState::ServerClosed, Side::Server) => (SocketState::ServerClosed, false),
        (SocketState::ClientClosed, Side::Server) => (SocketState::AllClosed, true),
        (SocketState::AllClosed, _) => (SocketState::AllClosed, true),
    }
}

/// Traffic read from the client travels in; traffic read from the server
/// travels out.
pub open spec fn read_item(side: Side, bytes: Seq<u8>) -> Direction<Seq<u8>> {
    match side {
        Side::Client => Direction::In(bytes),
        Side::Server => Direction::Out(bytes),
    }
}

/// The pair of sockets of a proxied connection (a reader and a writer for
/// each side), the record of which of them have closed, and the buffer that
/// reads land in. The pump that drives the sockets does the reading and
/// writing; this type takes the decisions.
pub struct SocketsHandler<R, W> {
    pub server_reader: Option<R>,
    pub server_writer: Option<W>,
    pub client_reader: Option<R>,
    pub client_writer: Option<W>,
    pub socket_state: SocketState,
    pub read_buf: [u8; READ_BUF_LEN],
}

/// The length of the buffer that reads land in.
pub const READ_BUF_LEN: usize = 2048;

impl<R, W> SocketsHandler<R, W> {
    /// A handler for the `server` and `client` sockets, both open, with a
    /// zeroed read buffer of `READ_BUF_LEN` bytes.
    pub fn new(server: (R, W), client: (R, W)) -> (r: SocketsHandler<R, W>)
        ensures
            r.server_reader == Some(server.0),
            r.server_writer == Some(server.1),
            r.client_reader == Some(client.0),
            r.client_writer == Some(client.1),
            r.socket_state is AllOpen,
            r.read_buf@ == Seq::new(READ_BUF_LEN as nat, |i: int| 0u8),
    {
        let read_buf = [0u8; READ_BUF_LEN];
        assert(read_buf@ =~= Seq::new(READ_BUF_LEN as nat, |i: int| 0u8));
        SocketsHandler {
            server_reader: Some(server.0),
            server_writer: Some(server.1),
            client_reader: Some(client.0),
            client_writer: Some(client.1),
            socket_state: SocketState::AllOpen,
            read_buf,
        }
    }

    /// Takes the decision after polling the socket on `side` for reading.
    /// Bytes read become an item: from the client travelling in, from the
    /// server travelling out. End of stream on a socket moves the closing
    /// state on and ends the stream once both have closed. When the client
    /// has nothing yet, the server is polled next; when the server has
    /// nothing yet, the pump waits.
    pub fn on_read(&mut self, side: Side, event: ReadEvent) -> (r: PollAction)
        requires
            event matches ReadEvent::Ready(n) ==> n <= READ_BUF_LEN,
            event matches ReadEvent::Ready(n) && n == 0 ==> !(old(self).socket_state is AllClosed),
        ensures
            final(self).server_reader == old(self).server_reader,
            final(self).server_writer == old(self).server_writer,
            final(self).client_reader == old(self).client_reader,
            final(self).client_writer == old(self).client_writer,
            final(self).read_buf == old(self).read_buf,
            r matches PollAction::Item(d) ==> (d is In || d is Out) && 1 <= chunk_bytes(d@).len()
                <= READ_BUF_LEN,
            match event {
                ReadEvent::Ready(n) => if n == 0 {
                    let (next, finished) = closed_transition(old(self).socket_state, side);
                    &&& final(self).socket_state == next
                    &&& if finished {
                        r is Finish
                    } else {
                        r is Wait
                    }
                } else {
                    &&& final(self).socket_state == old(self).socket_state
                    &&& r matches PollAction::Item(d) && d@ == read_item(
                        side,
                        old(self).read_buf@.subrange(0, n as int),
                    )
                },
                ReadEvent::NotReady => {
                    &&& final(self).socket_state == old(self).socket_state
                    &&& match side {
                        Side::Client => r is PollServer,
                        Side::Server => r is Wait,
                    }
                },
            },
    {
        match event {
            ReadEvent::Ready(n) => {
                if n == 0 {
                    match (self.socket_state, side) {
                        (SocketState::AllOpen, Side::Client) => {
                            self.socket_state = SocketState::ClientClosed;
                            PollAction::Wait
                        },
                        (SocketState::ClientClosed, Side::Client) => PollAction::Wait,
                        (SocketState::ServerClosed, Side::Client) => {
                            self.socket_state = SocketState::AllClosed;
                            PollAction::Finish
                        },
                        (SocketState::AllOpen, Side::Server) => {
                            self.socket_state = SocketState::ServerClosed;
                            PollAction::Wait
                        },
                        (SocketState::ServerClosed, Side::Server) => PollAction::Wait,
                        (SocketState::ClientClosed, Side::Server) => {
                            self.socket_state = SocketState::AllClosed;
                            PollAction::Finish
                        },
                        (SocketState::AllClosed, _) => {
                            assert(false);
                            PollAction::Finish
                        },
                    }
                } else {
                    let bytes = copy_prefix(&self.read_buf, n);
                    match side {
                        Side::Client => PollAction::Item(Direction::In(bytes)),
                        Side::Server => PollAction::Item(Direction::Out(bytes)),
                    }
                }
            },
            ReadEvent::NotReady => match side {
                Side::Client => PollAction::PollServer,
                Side::Server => PollAction::Wait,
            },
        }
    }
}

/// The first `n` bytes of the read buffer.
fn copy_prefix(buf: &[u8; READ_BUF_LEN], n: usize) -> (r: Vec<u8>)
    requires
        n <= READ_BUF_LEN,
    ensures
        r@ == buf@.subrange(0, n as int),
{
    let mut r: Vec<u8> = Vec::new();
    let mut k: usize = 0;
    while k < n
        invariant
            k <= n <= READ_BUF_LEN,
            buf@.len() == READ_BUF_LEN,
            r@ == buf@.subrange(0, k as int),
        decreases n - k,
    {
        r.push(buf[k]);
        k = k + 1;
    }
    r
}

/// The socket that an item is written to: traffic travelling out goes to
/// the client, traffic travelling in goes to the server.
pub fn write_side(item: &Direction<Vec<u8>>) -> (r: Side)
    requires
        item is Out || item is In,
    ensures
        item is Out ==> r is Client,
        item is In ==> r is Server,
{
    match item {
        Direction::Out(_) => Side::Client,
        _ => Side::Server,
    }
}

} // verus!
