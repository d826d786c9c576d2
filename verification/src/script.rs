use vstd::prelude::*;

use crate::connection_data::{copy_range, push_allowed, ConnectionData};
use crate::direction::Direction;

verus! {

/// The code by which a script names traffic that travels in (from the client).
pub const INCOMING: i8 = -1;

/// The code by which a script names traffic that travels out (from the server).
pub const OUTGOING: i8 = 1;

/// What a script's request for received traffic is answered with: a piece
/// of data with its direction code and the index of the piece it came from,
/// a request to wait, or the end of the traffic.
#[derive(Debug)]
pub enum Reply {
    Data { status: i8, data: Vec<u8>, no: usize },
    Wait,
    End,
}

/// Answers a script's request for at most `buffer_size` bytes of received
/// traffic: reads the record and tags what it gives with its direction code
/// and the index of the piece under the read cursor afterwards.
pub fn receive(cd: &mut ConnectionData, buffer_size: usize) -> (r: Reply)
    ensures
        old(cd)@.wf(),
        ({
            let (d, next) = old(cd)@.read_original(buffer_size as int);
            &&& final(cd)@ == next
            &&& match d {
                Direction::Out(b) => r matches Reply::Data { status, data, no } && status == OUTGOING
                    && data@ == b && no as int == next.read_position.0,
                Direction::In(b) => r matches Reply::Data { status, data, no } && status == INCOMING
                    && data@ == b && no as int == next.read_position.0,
                Direction::NotReady => r is Wait,
                Direction::Closed => r is End,
            }
        }),
        final(cd)@.wf(),
{
    match cd.get(buffer_size) {
        Direction::Out(data) => Reply::Data { status: OUTGOING, data, no: cd.get_no() },
        Direction::In(data) => Reply::Data { status: INCOMING, data, no: cd.get_no() },
        Direction::NotReady => Reply::Wait,
        Direction::Closed => Reply::End,
    }
}

/// The piece that a script's send request names: bytes sent with the
/// incoming code travel in, with the outgoing code out; any other code
/// names nothing.
pub open spec fn sent_piece(direction: i8, data: Seq<u8>) -> Option<Direction<Seq<u8>>> {
    if direction == INCOMING {
        Some(Direction::In(data))
    } else if direction == OUTGOING {
        Some(Direction::Out(data))
    } else {
        None
    }
}

/// Whether `send(cd, direction, data)` may be called now: the piece it names,
/// if any, may be added to the rewritten traffic.
pub fn can_send(cd: &ConnectionData, direction: i8, data: &Vec<u8>) -> (r: bool)
    ensures
        r == (sent_piece(direction, data@) matches Some(v) ==> push_allowed(cd@.modified, v)),
{
    if direction == INCOMING {
        let copy = copy_range(data, 0, data.len());
        assert(copy@ =~= data@);
        cd.can_push_modified(&Direction::In(copy))
    } else if direction == OUTGOING {
        let copy = copy_range(data, 0, data.len());
        assert(copy@ =~= data@);
        cd.can_push_modified(&Direction::Out(copy))
    } else {
        true
    }
}

/// Carries out the bookkeeping of a script's send request: records the
/// piece it names in the rewritten traffic and returns that piece, to be
/// written to its socket; a request with an unknown code changes nothing.
pub fn send(cd: &mut ConnectionData, direction: i8, data: Vec<u8>) -> (r: Option<Direction<Vec<u8>>>)
    requires
        sent_piece(direction, data@) matches Some(v) ==> push_allowed(old(cd)@.modified, v),
    ensures
        match sent_piece(direction, data@) {
            Some(v) => r matches Some(d) && d@ == v && final(cd)@ == old(cd)@.push_modified(v),
            None => r is None && final(cd)@ == old(cd)@,
        },
        final(cd)@.wf(),
{
    if direction == INCOMING {
        let copy = copy_range(&data, 0, data.len());
        assert(copy@ =~= data@);
        cd.push_modified(Direction::In(copy));
        Some(Direction::In(data))
    } else if direction == OUTGOING {
        let copy = copy_range(&data, 0, data.len());
        assert(copy@ =~= data@);
        cd.push_modified(Direction::Out(copy));
        Some(Direction::Out(data))
    } else {
        proof {
            use_type_invariant(&*cd);
        }
        None
    }
}

} // verus!
