use scripted_proxy::direction::Direction;
use scripted_proxy::proxy_parser::ProxyParser;
use scripted_proxy::sockets_handler::{
    write_side, PollAction, ReadEvent, Side, SocketState, SocketsHandler, READ_BUF_LEN,
};

fn handler() -> SocketsHandler<u8, u16> {
    SocketsHandler::new((1u8, 2u16), (3u8, 4u16))
}

#[test]
fn new_handler_is_open_with_zeroed_buffer() {
    let h = handler();
    assert_eq!(h.server_reader, Some(1));
    assert_eq!(h.server_writer, Some(2));
    assert_eq!(h.client_reader, Some(3));
    assert_eq!(h.client_writer, Some(4));
    assert!(matches!(h.socket_state, SocketState::AllOpen));
    assert_eq!(h.read_buf.len(), READ_BUF_LEN);
    assert_eq!(READ_BUF_LEN, 2048);
    assert!(h.read_buf.iter().all(|b| *b == 0));
}

#[test]
fn client_bytes_travel_in() {
    let mut h = handler();
    h.read_buf[0] = 10;
    h.read_buf[1] = 11;
    h.read_buf[2] = 12;
    match h.on_read(Side::Client, ReadEvent::Ready(2)) {
        PollAction::Item(Direction::In(b)) => assert_eq!(b, vec![10, 11]),
        other => panic!("unexpected {:?}", other),
    }
    assert!(matches!(h.socket_state, SocketState::AllOpen));
}

#[test]
fn server_bytes_travel_out() {
    let mut h = handler();
    h.read_buf[0] = 5;
    match h.on_read(Side::Server, ReadEvent::Ready(1)) {
        PollAction::Item(Direction::Out(b)) => assert_eq!(b, vec![5]),
        other => panic!("unexpected {:?}", other),
    }
}

#[test]
fn client_not_ready_polls_server_and_server_not_ready_waits() {
    let mut h = handler();
    assert!(matches!(h.on_read(Side::Client, ReadEvent::NotReady), PollAction::PollServer));
    assert!(matches!(h.on_read(Side::Server, ReadEvent::NotReady), PollAction::Wait));
}

#[test]
fn client_then_server_close_ends_stream() {
    let mut h = handler();
    assert!(matches!(h.on_read(Side::Client, ReadEvent::Ready(0)), PollAction::Wait));
    assert!(matches!(h.socket_state, SocketState::ClientClosed));
    assert!(matches!(h.on_read(Side::Client, ReadEvent::Ready(0)), PollAction::Wait));
    assert!(matches!(h.socket_state, SocketState::ClientClosed));
    assert!(matches!(h.on_read(Side::Server, ReadEvent::Ready(0)), PollAction::Finish));
    assert!(matches!(h.socket_state, SocketState::AllClosed));
}

#[test]
fn server_then_client_close_ends_stream() {
    let mut h = handler();
    assert!(matches!(h.on_read(Side::Server, ReadEvent::Ready(0)), PollAction::Wait));
    assert!(matches!(h.socket_state, SocketState::ServerClosed));
    assert!(matches!(h.on_read(Side::Server, ReadEvent::Ready(0)), PollAction::Wait));
    assert!(matches!(h.on_read(Side::Client, ReadEvent::Ready(0)), PollAction::Finish));
    assert!(matches!(h.socket_state, SocketState::AllClosed));
}

#[test]
fn writes_go_to_the_opposite_socket() {
    assert!(matches!(write_side(&Direction::Out(vec![1])), Side::Client));
    assert!(matches!(write_side(&Direction::In(vec![1])), Side::Server));
}

#[test]
fn proxy_parser_holds_its_socket() {
    let _p: ProxyParser<u8, u8> = ProxyParser::new((1, 2));
}
