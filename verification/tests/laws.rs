use scripted_proxy::connection_data::ConnectionData;
use scripted_proxy::direction::Direction;
use scripted_proxy::sockets_handler::{PollAction, ReadEvent, Side, SocketState, SocketsHandler};

fn all_bytes(cd: &mut ConnectionData) -> Vec<u8> {
    let mut out = Vec::new();
    loop {
        match cd.get(3) {
            Direction::In(b) | Direction::Out(b) => out.extend(b),
            _ => return out,
        }
    }
}

#[test]
fn reads_give_the_written_bytes_in_order() {
    let mut cd = ConnectionData::new();
    cd.push_original(Direction::In(vec![1, 2, 3, 4]));
    cd.push_original(Direction::Out(vec![5]));
    cd.push_original(Direction::Out(vec![6, 7]));
    cd.push_original(Direction::In(vec![8]));
    assert_eq!(all_bytes(&mut cd), vec![1, 2, 3, 4, 5, 6, 7, 8]);
}

#[test]
fn consecutive_writes_the_same_way_are_one_piece() {
    let mut a = ConnectionData::new();
    a.push_original(Direction::Out(vec![1]));
    a.push_original(Direction::Out(vec![2, 3]));
    let mut b = ConnectionData::new();
    b.push_original(Direction::Out(vec![1, 2, 3]));
    match (a.get(10), b.get(10)) {
        (Direction::Out(x), Direction::Out(y)) => assert_eq!(x, y),
        other => panic!("unexpected {:?}", other),
    }
    assert_eq!(a.get_no(), b.get_no());
}

#[test]
fn write_then_read_gives_the_write_back() {
    let mut cd = ConnectionData::new();
    cd.push_original(Direction::In(vec![1]));
    let _ = cd.get(10);
    cd.push_original(Direction::In(vec![2, 3]));
    match cd.get(2) {
        Direction::In(b) => assert_eq!(b, vec![2, 3]),
        other => panic!("unexpected {:?}", other),
    }
}

#[test]
fn stream_ends_when_both_sockets_closed() {
    let mut h: SocketsHandler<(), ()> = SocketsHandler::new(((), ()), ((), ()));
    assert!(matches!(h.on_read(Side::Client, ReadEvent::Ready(0)), PollAction::Wait));
    assert!(matches!(h.socket_state, SocketState::ClientClosed));
    assert!(matches!(h.on_read(Side::Server, ReadEvent::Ready(0)), PollAction::Finish));
}

fn tag(d: Direction<Vec<u8>>) -> Vec<(bool, u8)> {
    match d {
        Direction::In(b) => b.into_iter().map(|x| (true, x)).collect(),
        Direction::Out(b) => b.into_iter().map(|x| (false, x)).collect(),
        _ => vec![],
    }
}

#[test]
fn interleaved_writes_and_reads_deliver_every_byte_with_its_direction() {
    let mut cd = ConnectionData::new();
    let mut written: Vec<(bool, u8)> = vec![];
    let mut read: Vec<(bool, u8)> = vec![];
    cd.push_original(Direction::In(vec![1, 2, 3]));
    written.extend(tag(Direction::In(vec![1, 2, 3])));
    read.extend(tag(cd.get(2)));
    assert_eq!(read[..], written[..read.len()]);
    cd.push_original(Direction::Out(vec![4]));
    written.extend(tag(Direction::Out(vec![4])));
    cd.push_original(Direction::Out(vec![5, 6]));
    written.extend(tag(Direction::Out(vec![5, 6])));
    read.extend(tag(cd.get(1)));
    assert_eq!(read[..], written[..read.len()]);
    cd.push_original(Direction::In(vec![7]));
    written.extend(tag(Direction::In(vec![7])));
    loop {
        let r = cd.get(2);
        if matches!(r, Direction::NotReady) {
            break;
        }
        read.extend(tag(r));
        assert_eq!(read[..], written[..read.len()]);
    }
    assert_eq!(read, written);
}

#[test]
fn write_then_short_read_gives_the_first_bytes() {
    let mut cd = ConnectionData::new();
    cd.push_modified(Direction::Out(vec![1]));
    let _ = cd._get_modified(5);
    cd.push_modified(Direction::In(vec![2, 3, 4]));
    match cd._get_modified(2) {
        Direction::In(b) => assert_eq!(b, vec![2, 3]),
        other => panic!("unexpected {:?}", other),
    }
}

#[test]
fn not_ready_or_closed_only_when_all_is_read() {
    let mut cd = ConnectionData::new();
    cd.push_original(Direction::Out(vec![1, 2]));
    cd.push_original(Direction::Closed);
    assert!(matches!(cd.get(1), Direction::Out(_)));
    assert!(matches!(cd.get(1), Direction::Out(_)));
    assert!(matches!(cd.get(1), Direction::Closed));
}

#[test]
fn adding_to_one_record_leaves_the_other_alone() {
    let mut cd = ConnectionData::new();
    cd.push_original(Direction::In(vec![1, 2, 3]));
    cd.push_modified(Direction::Out(vec![7, 8]));
    match cd.get(1) {
        Direction::In(b) => assert_eq!(b, vec![1]),
        other => panic!("unexpected {:?}", other),
    }
    match cd._get_modified(1) {
        Direction::Out(b) => assert_eq!(b, vec![7]),
        other => panic!("unexpected {:?}", other),
    }
    cd.push_modified(Direction::In(vec![9]));
    assert_eq!(cd.get_no(), 0);
    match cd.get(5) {
        Direction::In(b) => assert_eq!(b, vec![2, 3]),
        other => panic!("unexpected {:?}", other),
    }
    cd.push_original(Direction::Out(vec![4]));
    match cd._get_modified(5) {
        Direction::Out(b) => assert_eq!(b, vec![8]),
        other => panic!("unexpected {:?}", other),
    }
}
