use vstd::prelude::*;

verus! {

/// A piece of traffic tagged with the way it travelled, or a marker
/// that carries no data: `NotReady` (nothing available yet) and
/// `Closed` (the stream has ended).
#[derive(Debug, Clone)]
pub enum Direction<T> {
    Out(T),
    In(T),
    NotReady,
    Closed,
}

impl<T: View> View for Direction<T> {
    type V = Direction<T::V>;

    open spec fn view(&self) -> Direction<T::V> {
        match self {
            Direction::Out(t) => Direction::Out(t@),
            Direction::In(t) => Direction::In(t@),
            Direction::NotReady => Direction::NotReady,
            Direction::Closed => Direction::Closed,
        }
    }
}

/// True of the two variants that carry bytes.
pub open spec fn carries_data<T>(d: Direction<T>) -> bool {
    d is Out || d is In
}

/// The bytes that a piece carries; markers carry none.
pub open spec fn chunk_bytes(d: Direction<Seq<u8>>) -> Seq<u8> {
    match d {
        Direction::Out(b) => b,
        Direction::In(b) => b,
        _ => Seq::empty(),
    }
}

/// A piece that travelled the same way as `d`, carrying `b`.
pub open spec fn with_bytes(d: Direction<Seq<u8>>, b: Seq<u8>) -> Direction<Seq<u8>> {
    match d {
        Direction::Out(_) => Direction::Out(b),
        _ => Direction::In(b),
    }
}

/// True when both pieces carry data and travelled the same way.
pub open spec fn same_way(a: Direction<Seq<u8>>, b: Direction<Seq<u8>>) -> bool {
    (a is In && b is In) || (a is Out && b is Out)
}

} // verus!
