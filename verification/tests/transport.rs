use qinit_ipc::codec::{decode_answer, decode_command, encode_answer, encode_command};
use qinit_ipc::messages::{AnswerFromQinit, CommandToQinit};
use qinit_ipc::socket::{bind, connect, listener_count, read, read_from_stream,
    write_and_read, PeerBehavior, SocketSpace, TransportError};

#[test]
fn echo_peer_returns_request_exactly() {
    let mut space = SocketSpace::new();
    let path = b"/tmp/echo.sock".to_vec();
    bind(&mut space, path.as_slice(), PeerBehavior::Echoes).unwrap();
    let request: Vec<u8> = (0u8..=255u8).collect();
    let reply = write_and_read(&mut space, path.as_slice(), &request).unwrap();
    assert_eq!(reply, request);
}

#[test]
fn bind_twice_leaves_one_live_listener() {
    let mut space = SocketSpace::new();
    let path = b"/tmp/twice.sock".to_vec();
    let first = bind(&mut space, path.as_slice(), PeerBehavior::Echoes);
    assert!(first.is_ok());
    let second = bind(&mut space, path.as_slice(), PeerBehavior::Replies(vec![7u8]));
    assert!(second.is_ok());
    assert_eq!(listener_count(&space, path.as_slice()), 1);
    // the survivor is the second binding
    let reply = write_and_read(&mut space, path.as_slice(), &vec![0u8]).unwrap();
    assert_eq!(reply, vec![7u8]);
}

#[test]
fn connect_without_listener_fails_with_path() {
    let space = SocketSpace::new();
    let path = b"/tmp/nobody.sock".to_vec();
    match connect(&space, path.as_slice()) {
        Err(TransportError::ConnectionRefused { path: p }) => assert_eq!(p, path),
        Ok(_) => panic!("connect must fail when nothing is bound"),
    }
}

#[test]
fn connect_with_listener_succeeds() {
    let mut space = SocketSpace::new();
    let path = b"/tmp/somebody.sock".to_vec();
    bind(&mut space, path.as_slice(), PeerBehavior::Echoes).unwrap();
    let stream = connect(&space, path.as_slice()).unwrap();
    assert_eq!(stream.path, path);
    assert!(stream.sent.is_empty());
    assert!(!stream.write_closed);
}

#[test]
fn get_login_credentials_reaches_server_intact() {
    let mut space = SocketSpace::new();
    let path = b"/tmp/test.sock".to_vec();
    let handle = bind(&mut space, path.as_slice(), PeerBehavior::Replies(Vec::new())).unwrap();
    let request = encode_command(&CommandToQinit::GetLoginCredentials);
    write_and_read(&mut space, path.as_slice(), &request).unwrap();
    let received = read(&mut space, &handle).unwrap();
    assert_eq!(received, request);
    assert_eq!(decode_command(received.as_slice()), Ok(CommandToQinit::GetLoginCredentials));
}

#[test]
fn write_and_read_without_listener_names_the_path() {
    let mut space = SocketSpace::new();
    let path = b"/tmp/absent.sock".to_vec();
    match qinit_ipc::socket::write(&mut space, path.as_slice(), &vec![0x01u8, 0x02u8, 0x03u8]) {
        Err(TransportError::ConnectionRefused { path: p }) => assert_eq!(p, path),
        Ok(_) => panic!("write must fail when nothing is bound"),
    }
    match write_and_read(&mut space, path.as_slice(), &vec![0x01u8, 0x02u8, 0x03u8]) {
        Err(TransportError::ConnectionRefused { path: p }) => assert_eq!(p, path),
        Ok(_) => panic!("write_and_read must fail when nothing is bound"),
    }
}

#[test]
fn login_none_reply_arrives_byte_exact() {
    let mut space = SocketSpace::new();
    let path = b"/tmp/login.sock".to_vec();
    let reply_bytes = encode_answer(&AnswerFromQinit::Login(None));
    bind(&mut space, path.as_slice(), PeerBehavior::Replies(reply_bytes.clone())).unwrap();
    let request = encode_command(&CommandToQinit::GetLoginCredentials);
    let reply = write_and_read(&mut space, path.as_slice(), &request).unwrap();
    assert_eq!(reply, reply_bytes);
    match decode_answer(reply.as_slice()) {
        Ok(AnswerFromQinit::Login(None)) => {}
        _ => panic!("expected Login(None)"),
    }
}

#[test]
fn server_reads_requests_oldest_first() {
    let mut space = SocketSpace::new();
    let path = b"/tmp/fifo.sock".to_vec();
    let handle = bind(&mut space, path.as_slice(), PeerBehavior::Replies(Vec::new())).unwrap();
    qinit_ipc::socket::write(&mut space, path.as_slice(), &vec![1u8]).unwrap();
    qinit_ipc::socket::write(&mut space, path.as_slice(), &vec![2u8, 2u8]).unwrap();
    assert_eq!(read(&mut space, &handle).unwrap(), vec![1u8]);
    assert_eq!(read(&mut space, &handle).unwrap(), vec![2u8, 2u8]);
    assert_eq!(listener_count(&space, path.as_slice()), 1);
}

#[test]
fn write_half_closes_and_reply_waits_on_stream() {
    let mut space = SocketSpace::new();
    let path = b"/tmp/stream.sock".to_vec();
    bind(&mut space, path.as_slice(), PeerBehavior::Replies(vec![9u8, 9u8])).unwrap();
    let stream = qinit_ipc::socket::write(&mut space, path.as_slice(), &vec![5u8]).unwrap();
    assert!(stream.write_closed);
    assert_eq!(stream.sent, vec![5u8]);
    let reply = read_from_stream(&stream).unwrap();
    assert_eq!(reply, vec![9u8, 9u8]);
}

#[test]
fn distinct_paths_do_not_interfere() {
    let mut space = SocketSpace::new();
    let left = b"/tmp/left.sock".to_vec();
    let right = b"/tmp/right.sock".to_vec();
    let left_handle = bind(&mut space, left.as_slice(), PeerBehavior::Replies(vec![1u8])).unwrap();
    bind(&mut space, right.as_slice(), PeerBehavior::Replies(vec![2u8])).unwrap();
    assert_eq!(write_and_read(&mut space, right.as_slice(), &vec![0u8]).unwrap(), vec![2u8]);
    assert_eq!(write_and_read(&mut space, left.as_slice(), &vec![0u8]).unwrap(), vec![1u8]);
    assert_eq!(listener_count(&space, left.as_slice()), 1);
    assert_eq!(listener_count(&space, right.as_slice()), 1);
    assert_eq!(read(&mut space, &left_handle).unwrap(), vec![0u8]);
}
