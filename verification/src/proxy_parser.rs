use vstd::prelude::*;

verus! {

/// A reader and a writer of one socket, held for a protocol parser.
pub struct ProxyParser<R, W> {
    socket_reader: Option<R>,
    socket_writer: Option<W>,
}

impl<R, W> ProxyParser<R, W> {
    /// The reader held.
    pub closed spec fn reader(&self) -> Option<R> {
        self.socket_reader
    }

    /// The writer held.
    pub closed spec fn writer(&self) -> Option<W> {
        self.socket_writer
    }

    /// A parser holding the reader and the writer of `i`.
    pub fn new(i: (R, W)) -> (r: ProxyParser<R, W>)
        ensures
            r.reader() == Some(i.0),
            r.writer() == Some(i.1),
    {
        ProxyParser { socket_reader: Some(i.0), socket_writer: Some(i.1) }
    }
}

} // verus!
