use scripted_proxy::connection_data::ConnectionData;
use scripted_proxy::direction::Direction;
use scripted_proxy::script::{receive, send, Reply, INCOMING, OUTGOING};

#[test]
fn codes() {
    assert_eq!(INCOMING, -1);
    assert_eq!(OUTGOING, 1);
}

#[test]
fn receive_tags_direction_and_piece_index() {
    let mut cd = ConnectionData::new();
    cd.push_original(Direction::In(vec![1, 2]));
    cd.push_original(Direction::Out(vec![3]));
    match receive(&mut cd, 10) {
        Reply::Data { status, data, no } => {
            assert_eq!(status, -1);
            assert_eq!(data, vec![1, 2]);
            assert_eq!(no, 0);
        }
        other => panic!("unexpected {:?}", other),
    }
    match receive(&mut cd, 10) {
        Reply::Data { status, data, no } => {
            assert_eq!(status, 1);
            assert_eq!(data, vec![3]);
            assert_eq!(no, 1);
        }
        other => panic!("unexpected {:?}", other),
    }
    assert!(matches!(receive(&mut cd, 10), Reply::Wait));
    cd.push_original(Direction::Closed);
    assert!(matches!(receive(&mut cd, 10), Reply::End));
}

#[test]
fn send_records_and_returns_the_piece() {
    let mut cd = ConnectionData::new();
    match send(&mut cd, -1, vec![1, 2]) {
        Some(Direction::In(b)) => assert_eq!(b, vec![1, 2]),
        other => panic!("unexpected {:?}", other),
    }
    match send(&mut cd, 1, vec![3]) {
        Some(Direction::Out(b)) => assert_eq!(b, vec![3]),
        other => panic!("unexpected {:?}", other),
    }
    assert!(send(&mut cd, 0, vec![4]).is_none());
    match cd._get_modified(10) {
        Direction::In(b) => assert_eq!(b, vec![1, 2]),
        other => panic!("unexpected {:?}", other),
    }
    match cd._get_modified(10) {
        Direction::Out(b) => assert_eq!(b, vec![3]),
        other => panic!("unexpected {:?}", other),
    }
    assert!(matches!(cd._get_modified(10), Direction::NotReady));
}
