use scripted_proxy::connection_data::ConnectionData;
use scripted_proxy::direction::Direction;

fn bytes_in(d: &Direction<Vec<u8>>) -> Option<Vec<u8>> {
    match d {
        Direction::In(b) => Some(b.clone()),
        _ => None,
    }
}

fn bytes_out(d: &Direction<Vec<u8>>) -> Option<Vec<u8>> {
    match d {
        Direction::Out(b) => Some(b.clone()),
        _ => None,
    }
}

#[test]
fn empty_record_is_not_ready() {
    let mut cd = ConnectionData::new();
    assert!(matches!(cd.get(10), Direction::NotReady));
    assert!(matches!(cd._get_modified(10), Direction::NotReady));
    assert_eq!(cd.get_no(), 0);
}

#[test]
fn read_in_pieces_of_size() {
    let mut cd = ConnectionData::new();
    cd.push_original(Direction::In(vec![1, 2, 3, 4, 5]));
    assert_eq!(bytes_in(&cd.get(2)), Some(vec![1, 2]));
    assert_eq!(bytes_in(&cd.get(2)), Some(vec![3, 4]));
    assert_eq!(bytes_in(&cd.get(2)), Some(vec![5]));
    assert!(matches!(cd.get(2), Direction::NotReady));
}

#[test]
fn same_direction_is_joined() {
    let mut cd = ConnectionData::new();
    cd.push_original(Direction::In(vec![1, 2]));
    cd.push_original(Direction::In(vec![3]));
    assert_eq!(bytes_in(&cd.get(100)), Some(vec![1, 2, 3]));
    assert_eq!(cd.get_no(), 0);
}

#[test]
fn direction_change_starts_new_piece() {
    let mut cd = ConnectionData::new();
    cd.push_original(Direction::In(vec![1, 2]));
    cd.push_original(Direction::Out(vec![7, 8]));
    assert_eq!(bytes_in(&cd.get(100)), Some(vec![1, 2]));
    assert_eq!(cd.get_no(), 0);
    assert_eq!(bytes_out(&cd.get(100)), Some(vec![7, 8]));
    assert_eq!(cd.get_no(), 1);
    assert!(matches!(cd.get(100), Direction::NotReady));
}

#[test]
fn data_added_after_reading_everything_is_read_next() {
    let mut cd = ConnectionData::new();
    cd.push_original(Direction::Out(vec![1]));
    assert_eq!(bytes_out(&cd.get(100)), Some(vec![1]));
    assert!(matches!(cd.get(100), Direction::NotReady));
    cd.push_original(Direction::Out(vec![2, 3]));
    assert_eq!(bytes_out(&cd.get(100)), Some(vec![2, 3]));
    cd.push_original(Direction::In(vec![4]));
    assert_eq!(bytes_in(&cd.get(100)), Some(vec![4]));
    assert_eq!(cd.get_no(), 1);
}

#[test]
fn closed_marker_is_given_again_and_again() {
    let mut cd = ConnectionData::new();
    cd.push_original(Direction::In(vec![1]));
    cd.push_original(Direction::Closed);
    assert_eq!(bytes_in(&cd.get(100)), Some(vec![1]));
    assert!(matches!(cd.get(100), Direction::Closed));
    assert!(matches!(cd.get(100), Direction::Closed));
    assert_eq!(cd.get_no(), 1);
}

#[test]
fn closed_as_first_piece() {
    let mut cd = ConnectionData::new();
    cd.push_modified(Direction::Closed);
    assert!(matches!(cd._get_modified(1), Direction::Closed));
    assert!(!cd.can_push_modified(&Direction::In(vec![1])));
}

#[test]
fn zero_size_read_gives_empty_piece() {
    let mut cd = ConnectionData::new();
    cd.push_original(Direction::Out(vec![1, 2]));
    assert_eq!(bytes_out(&cd.get(0)), Some(vec![]));
    assert_eq!(bytes_out(&cd.get(5)), Some(vec![1, 2]));
}

#[test]
fn empty_pieces_are_passed_over() {
    let mut cd = ConnectionData::new();
    cd.push_original(Direction::In(vec![]));
    cd.push_original(Direction::Out(vec![]));
    cd.push_original(Direction::In(vec![6]));
    assert_eq!(bytes_in(&cd.get(9)), Some(vec![6]));
    assert_eq!(cd.get_no(), 2);
}

#[test]
fn the_two_records_are_independent() {
    let mut cd = ConnectionData::new();
    cd.push_original(Direction::In(vec![1]));
    cd.push_modified(Direction::Out(vec![2]));
    assert_eq!(bytes_out(&cd._get_modified(9)), Some(vec![2]));
    assert!(matches!(cd._get_modified(9), Direction::NotReady));
    assert_eq!(bytes_in(&cd.get(9)), Some(vec![1]));
}

#[test]
fn what_may_be_added() {
    let mut cd = ConnectionData::new();
    assert!(cd.can_push_original(&Direction::NotReady));
    assert!(cd.can_push_original(&Direction::In(vec![1])));
    cd.push_original(Direction::In(vec![1]));
    assert!(!cd.can_push_original(&Direction::NotReady));
    assert!(cd.can_push_original(&Direction::Out(vec![1])));
    assert!(cd.can_push_original(&Direction::In(vec![1])));
    assert!(cd.can_push_original(&Direction::Closed));
    cd.push_original(Direction::Closed);
    assert!(!cd.can_push_original(&Direction::In(vec![1])));
    assert!(!cd.can_push_original(&Direction::Closed));
}

#[test]
fn not_ready_as_first_piece_blocks_reading() {
    let mut cd = ConnectionData::new();
    cd.push_original(Direction::NotReady);
    assert!(matches!(cd.get(4), Direction::NotReady));
    assert!(!cd.can_push_original(&Direction::In(vec![1])));
}
