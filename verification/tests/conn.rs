//! The two directions of a stream, control messages, addresses and the handshake.
use async_rustbus::conn::addr::{
    abstract_socket_path, parse_session_bus_addr, AddrError, DBusAddr, DBUS_SESS_ENV,
    DBUS_SYS_PATH,
};
use async_rustbus::conn::ancillary::{AncillaryData, AncillaryError, CmsgLayout, SocketAncillary};
use async_rustbus::conn::handshake::{
    starts_with, Answer, Handshake, HandshakeAction, HandshakeError, MAX_LINE,
};
use async_rustbus::conn::recv::{RecvError, RecvState};
use async_rustbus::conn::sender::{
    RawOut, SendError, SendState, WriteEvent, WriteStep, MAX_OUT_QUEUE,
};
use async_rustbus::rustbus_core::message_builder::{MarshalledMessage, MessageBuilder};
use async_rustbus::rustbus_core::wire_format::{MarshalError, ValidationError};
use async_rustbus::rustbus_core::{ByteOrder, MessageType, Serial};
use rustbus::wire::UnixFd;

const LAYOUT: CmsgLayout = CmsgLayout {
    word: 8,
    order: ByteOrder::LittleEndian,
    sol_socket: 1,
    scm_rights: 1,
};

fn message(order: ByteOrder) -> MarshalledMessage {
    let mut msg = MessageBuilder::with_byteorder(order)
        .call("Member")
        .on("/obj")
        .with_interface("io.test.If")
        .at("io.test")
        .build();
    msg.body.push_param2("some text", 77u32).unwrap();
    msg
}

fn bytes_of(msg: &MarshalledMessage, serial: u32) -> Vec<u8> {
    let mut bytes = Vec::new();
    msg.marshal_header(Serial::new(serial).unwrap(), &mut bytes)
        .unwrap();
    bytes.extend_from_slice(msg.get_buf());
    bytes
}

fn no_message(state: &mut RecvState) {
    assert!(matches!(state.get_next_message(), Ok(None)));
}

fn next_error(state: &mut RecvState, bytes: &[u8]) -> RecvError {
    no_message(state);
    state.received(bytes, Vec::new()).unwrap();
    state.get_next_message().unwrap_err()
}

// ---------------------------------------------------------------------------
// Receiving
// ---------------------------------------------------------------------------

#[test]
fn messages_are_received_in_one_piece() {
    for order in [ByteOrder::LittleEndian, ByteOrder::BigEndian] {
        let msg = message(order);
        let mut bytes = bytes_of(&msg, 5);
        let second = MessageBuilder::new().signal("io.a", "S", "/").build();
        bytes.extend_from_slice(&bytes_of(&second, 6));
        let mut state = RecvState::new(false);
        no_message(&mut state);
        state.received(&bytes, Vec::new()).unwrap();
        let got = state.get_next_message().unwrap().unwrap();
        assert_eq!(got.typ, MessageType::Call);
        assert_eq!(got.dynheader.serial, Serial::new(5));
        assert_eq!(got.dynheader.member.as_deref(), Some("Member"));
        assert_eq!(got.body.byteorder(), order);
        assert_eq!(got.get_buf(), msg.get_buf());
        let (text, number): (&str, u32) = got.body.parser().get2().unwrap();
        assert_eq!((text, number), ("some text", 77));
        let got = state.get_next_message().unwrap().unwrap();
        assert_eq!(got.typ, MessageType::Signal);
        assert_eq!(got.dynheader.serial, Serial::new(6));
        assert_eq!(got.get_sig(), "");
        no_message(&mut state);
    }
}

#[test]
fn messages_are_received_byte_by_byte() {
    let msg = message(ByteOrder::LittleEndian);
    let bytes = bytes_of(&msg, 5);
    for step in [1, 2, 3, 7, 16, 100] {
        let mut state = RecvState::new(true);
        let mut at = 0;
        let got = loop {
            match state.get_next_message().unwrap() {
                Some(got) => break got,
                None => {
                    let count = state.bytes_needed_for_next().min(step).min(bytes.len() - at);
                    assert!(count > 0);
                    state
                        .received(&bytes[at..at + count], Vec::new())
                        .unwrap();
                    at += count;
                }
            }
        };
        assert_eq!(at, bytes.len());
        assert_eq!(got.get_buf(), msg.get_buf());
        assert_eq!(got.dynheader.object.as_deref(), Some("/obj"));
    }
}

#[test]
fn how_much_is_read() {
    let bytes = bytes_of(&message(ByteOrder::LittleEndian), 5);
    let mut state = RecvState::new(true);
    no_message(&mut state);
    assert_eq!(state.bytes_needed_for_next(), 16);
    assert!(!state.pos_next_msg());
    state.received(&bytes[..16], Vec::new()).unwrap();
    no_message(&mut state);
    let header = bytes.len() - 20;
    assert_eq!(state.bytes_needed_for_next(), header - 16);
    state.received(&bytes[16..header], Vec::new()).unwrap();
    no_message(&mut state);
    assert_eq!(state.bytes_needed_for_next(), 20);
}

#[test]
fn after_a_message_the_next_one_starts() {
    let mut bytes = vec![
        b'l', 2, 0, 1, 4, 0, 0, 0, 1, 0, 0, 0, 15, 0, 0, 0, 5, 1, b'u', 0, 5, 0, 0, 0, 8, 1, b'g',
        0, 1, b'u', 0, 0, 7, 0, 0, 0,
    ];
    bytes.push(b'l');
    let mut state = RecvState::new(false);
    no_message(&mut state);
    state.received(&bytes, Vec::new()).unwrap();
    let msg = state.get_next_message().unwrap().unwrap();
    assert_eq!(msg.typ, MessageType::Reply);
    assert_eq!(msg.flags, 0);
    assert_eq!(msg.dynheader.serial, Serial::new(1));
    assert_eq!(msg.dynheader.response_serial, Serial::new(5));
    assert_eq!(msg.body.sig(), "u");
    assert_eq!(msg.body.buf(), [7, 0, 0, 0]);
    no_message(&mut state);
    assert_eq!(state.bytes_needed_for_next(), 15);
}

#[test]
fn messages_without_a_kind_are_not_sent() {
    assert_eq!(
        SendState::new(true)
            .prepare(&MarshalledMessage::new(), Serial::new(1).unwrap())
            .unwrap_err(),
        SendError::Marshal(MarshalError::InvalidType)
    );
}

#[test]
fn after_an_error_the_next_message_starts() {
    let mut bad = vec![b'x'];
    bad.resize(16, 1);
    let mut state = RecvState::new(true);
    assert_eq!(next_error(&mut state, &bad), RecvError::BadHeader);
    no_message(&mut state);
    assert_eq!(state.bytes_needed_for_next(), 16);
    let mut state = RecvState::new(true);
    no_message(&mut state);
    let fds: Vec<UnixFd> = (0..33).map(|i| UnixFd::new(7000 + i)).collect();
    let copies = fds.clone();
    assert!(state.received(&[b'l'; 7], fds).is_err());
    no_message(&mut state);
    assert_eq!(state.bytes_needed_for_next(), 16);
    for fd in copies {
        let _ = fd.take_raw_fd();
    }
}

#[test]
fn broken_streams() {
    let good = bytes_of(&message(ByteOrder::LittleEndian), 5);
    let mut order = good.clone();
    order[0] = b'x';
    assert_eq!(
        next_error(&mut RecvState::new(false), &order),
        RecvError::BadHeader
    );
    let mut kind = good.clone();
    kind[1] = 9;
    assert_eq!(
        next_error(&mut RecvState::new(false), &kind),
        RecvError::BadHeader
    );
    let mut serial = good.clone();
    serial[8] = 0;
    assert_eq!(
        next_error(&mut RecvState::new(false), &serial),
        RecvError::ZeroSerial
    );
    let mut field = good.clone();
    field[16] = 99;
    assert_eq!(
        next_error(&mut RecvState::new(false), &field),
        RecvError::BadHeader
    );
    let mut body = good.clone();
    let last = body.len() - 5;
    body[last] = 1;
    assert_eq!(
        next_error(&mut RecvState::new(false), &body),
        RecvError::BadBody
    );
}

#[test]
fn file_descriptors_come_with_their_message() {
    let mut msg = message(ByteOrder::LittleEndian);
    msg.body = async_rustbus::rustbus_core::message_builder::MarshalledMessageBody::from_parts(
        vec![0, 0, 0, 0],
        vec![UnixFd::new(1000)],
        "h".to_string(),
        ByteOrder::LittleEndian,
    );
    let bytes = bytes_of(&msg, 5);
    let _ = msg.body.get_fds().pop().unwrap().take_raw_fd();

    let mut state = RecvState::new(true);
    no_message(&mut state);
    let mut fds = vec![UnixFd::new(2000)];
    let mut at = 0;
    let got = loop {
        match state.get_next_message().unwrap() {
            Some(got) => break got,
            None => {
                let count = state.bytes_needed_for_next();
                state
                    .received(&bytes[at..at + count], std::mem::take(&mut fds))
                    .unwrap();
                at += count;
            }
        }
    };
    assert_eq!(got.dynheader.num_fds, Some(1));
    assert_eq!(got.body.fds().len(), 1);
    let fd = got.body.get_fds().pop().unwrap();
    assert_eq!(fd.take_raw_fd(), Some(2000));

    // Without descriptors in the connection the header is refused.
    assert_eq!(
        next_error(&mut RecvState::new(false), &bytes),
        RecvError::BadHeader
    );

    // The announced number has to come.
    let mut state = RecvState::new(true);
    let mut at = 0;
    let error = loop {
        match state.get_next_message() {
            Ok(Some(_)) => panic!("a message without its descriptors"),
            Ok(None) => {
                let count = state.bytes_needed_for_next();
                state
                    .received(&bytes[at..at + count], Vec::new())
                    .unwrap();
                at += count;
            }
            Err(error) => break error,
        }
    };
    assert_eq!(error, RecvError::WrongFdCount);
}

#[test]
fn too_many_file_descriptors() {
    let mut state = RecvState::new(true);
    no_message(&mut state);
    let fds: Vec<UnixFd> = (0..33).map(|i| UnixFd::new(3000 + i)).collect();
    let copies = fds.clone();
    assert_eq!(
        state.received(&[b'l'], fds).unwrap_err(),
        RecvError::TooManyFds
    );
    for fd in copies {
        let _ = fd.take_raw_fd();
    }
}

// ---------------------------------------------------------------------------
// Sending
// ---------------------------------------------------------------------------

fn ancillary() -> SocketAncillary {
    SocketAncillary::new(vec![0; 256], LAYOUT)
}

fn raw(header: &[u8], body: &[u8], fds: &[i32]) -> RawOut {
    RawOut {
        written: 0,
        header: header.to_vec(),
        body: body.to_vec(),
        fds: fds.to_vec(),
    }
}

fn queued(step: WriteStep) -> u64 {
    match step {
        WriteStep::Queued(idx) => idx,
        other => panic!("{:?}", other),
    }
}

#[test]
fn messages_are_prepared() {
    let state = SendState::new(false);
    let msg = message(ByteOrder::LittleEndian);
    let out = state.prepare(&msg, Serial::new(5).unwrap()).unwrap();
    assert_eq!(out.written, 0);
    assert_eq!(
        [out.header.as_slice(), out.body.as_slice()].concat(),
        bytes_of(&msg, 5)
    );
    assert!(out.fds.is_empty());
}

#[test]
fn messages_that_cannot_be_sent() {
    let serial = Serial::new(1).unwrap();
    let with_fds = |count: i32| {
        let mut msg = message(ByteOrder::LittleEndian);
        msg.body = async_rustbus::rustbus_core::message_builder::MarshalledMessageBody::from_parts(
            vec![0, 0, 0, 0],
            (0..count).map(|i| UnixFd::new(5000 + i)).collect(),
            "h".to_string(),
            ByteOrder::LittleEndian,
        );
        msg
    };
    let give_back = |msg: MarshalledMessage| {
        for fd in msg.body.get_fds() {
            let _ = fd.take_raw_fd();
        }
    };
    let msg = with_fds(1);
    assert_eq!(
        SendState::new(false).prepare(&msg, serial).unwrap_err(),
        SendError::TooManyFds
    );
    let out = SendState::new(true).prepare(&msg, serial).unwrap();
    assert_eq!(out.fds, vec![5000]);
    assert_eq!(
        SendState::new(true).prepare(&msg, serial).unwrap_err(),
        SendError::MissingFd(vec![])
    );
    let msg = with_fds(33);
    assert_eq!(
        SendState::new(true).prepare(&msg, serial).unwrap_err(),
        SendError::TooManyFds
    );
    give_back(msg);
    let mut msg = message(ByteOrder::LittleEndian);
    msg.dynheader.member = Some("no member".to_string());
    assert_eq!(
        SendState::new(true).prepare(&msg, serial).unwrap_err(),
        SendError::Marshal(MarshalError::Validation(ValidationError::InvalidMembername))
    );
}

#[test]
fn a_message_goes_out_in_steps() {
    let mut state = SendState::new(false);
    let out = raw(b"head", b"body", &[]);
    let mut anc = ancillary();
    let pieces = state.gather_with(&out, &mut anc);
    assert_eq!(pieces.as_slice(), [&b"head"[..], &b"body"[..]]);
    assert_eq!(anc.len(), 0);
    drop(pieces);
    let (step, close) = state.write_event(out, WriteEvent::Written(3));
    assert!(close.is_empty());
    let out = match step {
        WriteStep::Again(out) => out,
        other => panic!("{:?}", other),
    };
    let pieces = state.gather_with(&out, &mut ancillary());
    assert_eq!(pieces.as_slice(), [&b"d"[..], &b"body"[..]]);
    drop(pieces);
    let (step, _) = state.write_event(out, WriteEvent::Written(2));
    let out = match step {
        WriteStep::Again(out) => out,
        other => panic!("{:?}", other),
    };
    let pieces = state.gather_with(&out, &mut ancillary());
    assert_eq!(pieces.as_slice(), [&b"ody"[..]]);
    drop(pieces);
    let (step, _) = state.write_event(out, WriteEvent::Written(3));
    assert!(matches!(step, WriteStep::Sent));
    assert!(state.is_empty());
}

#[test]
fn messages_wait_in_order() {
    let mut state = SendState::new(true);
    let (step, _) = state.write_event(raw(b"aa", b"bb", &[]), WriteEvent::WouldBlock);
    assert_eq!(queued(step), 0);
    let (step, _) = state.write_event(raw(b"cc", b"", &[]), WriteEvent::WouldBlock);
    assert_eq!(queued(step), 1);
    assert_eq!(state.current_idx(), 0);
    assert!(!state.is_written(0));

    let out = raw(b"dd", b"ee", &[]);
    let pieces = state.gather_with(&out, &mut ancillary());
    assert_eq!(
        pieces.as_slice(),
        [&b"aa"[..], &b"bb"[..], &b"cc"[..], &b"dd"[..], &b"ee"[..]]
    );
    drop(pieces);
    let (step, _) = state.write_event(out, WriteEvent::Written(5));
    let out = match step {
        WriteStep::Again(out) => out,
        other => panic!("{:?}", other),
    };
    assert_eq!(out.written, 0);
    assert_eq!(state.current_idx(), 1);
    assert!(state.is_written(0));
    assert!(!state.is_written(1));
    let pieces = state.gather(&mut ancillary());
    assert_eq!(pieces.as_slice(), [&b"c"[..]]);
    drop(pieces);
    let (idx, _) = state.finish_event(WriteEvent::WouldBlock);
    assert_eq!(idx, Some(1));
    let (idx, _) = state.finish_event(WriteEvent::Written(0));
    assert_eq!(idx, None);
    let (idx, _) = state.finish_event(WriteEvent::Written(1));
    assert_eq!(idx, Some(2));
    assert!(state.is_written(1));
    let (step, _) = state.write_event(out, WriteEvent::WouldBlock);
    assert_eq!(queued(step), 2);
}

#[test]
fn file_descriptors_go_out_with_the_first_byte() {
    let mut state = SendState::new(true);
    state.write_event(raw(b"aa", b"", &[7, 8]), WriteEvent::WouldBlock);
    state.write_event(raw(b"bb", b"", &[9]), WriteEvent::WouldBlock);
    let mut anc = ancillary();
    let pieces = state.gather(&mut anc);
    assert_eq!(pieces.as_slice(), [&b"aa"[..]]);
    assert_eq!(descriptors(&anc), vec![7, 8]);
    drop(pieces);
    let (idx, close) = state.finish_event(WriteEvent::Written(1));
    assert_eq!(idx, None);
    assert!(close.is_empty());
    let mut anc = ancillary();
    let pieces = state.gather(&mut anc);
    assert_eq!(pieces.as_slice(), [&b"a"[..]]);
    assert_eq!(anc.len(), 0);
    drop(pieces);
    let (_, close) = state.finish_event(WriteEvent::Written(1));
    assert_eq!(close, vec![7, 8]);
    let out = raw(b"cc", b"", &[10]);
    let mut anc = ancillary();
    let pieces = state.gather_with(&out, &mut anc);
    assert_eq!(pieces.as_slice(), [&b"bb"[..]]);
    assert_eq!(descriptors(&anc), vec![9]);
    drop(pieces);
    let (step, close) = state.write_event(out, WriteEvent::Written(2));
    assert_eq!(close, vec![9]);
    let out = match step {
        WriteStep::Again(out) => out,
        other => panic!("{:?}", other),
    };
    let mut anc = ancillary();
    state.gather_with(&out, &mut anc);
    assert_eq!(descriptors(&anc), vec![10]);
    let (step, close) = state.write_event(out, WriteEvent::Written(2));
    assert!(matches!(step, WriteStep::Sent));
    assert_eq!(close, vec![10]);
}

#[test]
fn only_so_many_pieces_at_a_time() {
    let mut state = SendState::new(false);
    for _ in 0..20 {
        state.write_event(raw(b"h", b"b", &[]), WriteEvent::WouldBlock);
    }
    assert_eq!(state.gather(&mut ancillary()).len(), 32);
    let mut odd = SendState::new(false);
    odd.write_event(raw(b"h", b"", &[]), WriteEvent::WouldBlock);
    for _ in 0..20 {
        odd.write_event(raw(b"h", b"b", &[]), WriteEvent::WouldBlock);
    }
    let pieces = odd.gather(&mut ancillary());
    assert_eq!(pieces.len(), 32);
    assert_eq!(pieces[31], b"h");
}

#[test]
fn only_so_many_messages_wait() {
    let mut state = SendState::new(false);
    for i in 0..MAX_OUT_QUEUE {
        let (step, _) = state.write_event(raw(b"h", b"", &[]), WriteEvent::WouldBlock);
        assert_eq!(queued(step), i as u64);
    }
    let (step, _) = state.write_event(raw(b"x", b"", &[]), WriteEvent::WouldBlock);
    match step {
        WriteStep::Full(back) => assert_eq!(back.header, b"x"),
        other => panic!("{:?}", other),
    }
}

// ---------------------------------------------------------------------------
// Control messages
// ---------------------------------------------------------------------------

fn descriptors(anc: &SocketAncillary) -> Vec<i32> {
    let mut fds = Vec::new();
    let mut messages = anc.messages();
    while let Some(item) = messages.next() {
        match item {
            Ok(AncillaryData::ScmRights(mut rights)) => {
                while let Some(fd) = rights.next() {
                    fds.push(fd);
                }
            }
            Err(error) => panic!("{:?}", error),
        }
    }
    fds
}

#[test]
fn control_messages() {
    let mut anc = SocketAncillary::new(vec![0; 64], LAYOUT);
    assert_eq!(anc.capacity(), 64);
    assert_eq!(anc.len(), 0);
    assert!(!anc.truncated());
    assert!(anc.add_fds(&[3, -1]));
    assert_eq!(anc.len(), 24);
    assert_eq!(
        anc.as_slice(),
        [24, 0, 0, 0, 0, 0, 0, 0, 1, 0, 0, 0, 1, 0, 0, 0, 3, 0, 0, 0, 255, 255, 255, 255]
    );
    assert!(anc.add_fds(&[5]));
    assert_eq!(anc.len(), 48);
    assert_eq!(descriptors(&anc), vec![3, -1, 5]);
    assert!(!anc.add_fds(&[6]));
    anc.clear();
    assert_eq!(anc.len(), 0);
    assert_eq!(descriptors(&anc), Vec::<i32>::new());
}

#[test]
fn other_layouts() {
    let layout = CmsgLayout {
        word: 4,
        order: ByteOrder::BigEndian,
        sol_socket: 0xffff,
        scm_rights: 1,
    };
    let mut anc = SocketAncillary::new(vec![0; 64], layout);
    assert!(anc.add_fds(&[9]));
    assert_eq!(
        anc.as_slice(),
        [0, 0, 0, 16, 0, 0, 255, 255, 0, 0, 0, 1, 0, 0, 0, 9]
    );
    assert_eq!(descriptors(&anc), vec![9]);
}

#[test]
fn received_control_messages() {
    let mut bytes = vec![
        20, 0, 0, 0, 0, 0, 0, 0, 1, 0, 0, 0, 2, 0, 0, 0, 9, 9, 9, 9, 0, 0, 0, 0, // other kind
        20, 0, 0, 0, 0, 0, 0, 0, 1, 0, 0, 0, 1, 0, 0, 0, 42, 0, 0, 0, 0, 0, 0, 0,
    ];
    let length = bytes.len();
    bytes.resize(128, 0);
    let anc = SocketAncillary::received(bytes, length, true, LAYOUT);
    assert!(anc.truncated());
    let mut messages = anc.messages();
    assert!(matches!(
        messages.next(),
        Some(Err(AncillaryError::Unknown {
            cmsg_level: 1,
            cmsg_type: 2
        }))
    ));
    match messages.next() {
        Some(Ok(AncillaryData::ScmRights(mut rights))) => {
            assert_eq!(rights.next(), Some(42));
            assert_eq!(rights.next(), None);
        }
        _ => panic!("no descriptors"),
    }
    assert!(messages.next().is_none());
}

// ---------------------------------------------------------------------------
// Addresses
// ---------------------------------------------------------------------------

#[test]
fn session_addresses() {
    let parse = |s: &str| parse_session_bus_addr(s.as_bytes());
    assert_eq!(
        parse("unix:path=/run/user/1000/bus"),
        Ok(DBusAddr::Path(b"/run/user/1000/bus".to_vec()))
    );
    assert_eq!(
        parse("unix:abstract=/tmp/dbus-x,guid=12"),
        Ok(DBusAddr::Abstract(b"/tmp/dbus-x".to_vec()))
    );
    assert_eq!(
        parse("unix:path=/a,abstract=b"),
        Ok(DBusAddr::Abstract(b"b".to_vec()))
    );
    assert_eq!(
        parse("unix:path=/a,path=/b"),
        Ok(DBusAddr::Path(b"/b".to_vec()))
    );
    assert_eq!(
        parse("tcp:host=localhost,port=29011"),
        Ok(DBusAddr::Tcp("localhost:29011".to_string()))
    );
    assert_eq!(parse("tcp:host=localhost"), Err(AddrError::Invalid));
    assert_eq!(parse("unix:path=a=b"), Err(AddrError::Invalid));
    assert_eq!(parse("unix:"), Err(AddrError::Invalid));
    assert_eq!(parse("unix"), Err(AddrError::Invalid));
    assert_eq!(parse("udp:host=a,port=1"), Err(AddrError::Invalid));
    assert_eq!(
        parse_session_bus_addr(b"tcp:host=\xff,port=1"),
        Err(AddrError::Invalid)
    );
    assert_eq!(DBUS_SYS_PATH, "/run/dbus/system_bus_socket");
    assert_eq!(DBUS_SESS_ENV, "DBUS_SESSION_BUS_ADDRESS");
}

#[test]
fn abstract_socket_paths() {
    assert_eq!(
        abstract_socket_path(b"abc", 6),
        Ok(vec![0, b'a', b'b', b'c', 0, 0])
    );
    assert_eq!(abstract_socket_path(b"abc", 4), Ok(vec![0, b'a', b'b', b'c']));
    assert_eq!(abstract_socket_path(b"abc", 3), Err(AddrError::TooLong));
}

// ---------------------------------------------------------------------------
// The handshake
// ---------------------------------------------------------------------------

#[test]
fn handshake_without_file_descriptors() {
    let mut handshake = Handshake::new(false, 0x1a2f);
    assert_eq!(
        handshake.next(),
        HandshakeAction::Write(b"\0AUTH EXTERNAL 1A2F\r\n".to_vec())
    );
    assert_eq!(handshake.next(), HandshakeAction::Read(512));
    handshake.received(b"O");
    assert_eq!(handshake.next(), HandshakeAction::Read(511));
    handshake.received(b"K 1234\r");
    assert_eq!(handshake.next(), HandshakeAction::Read(504));
    handshake.received(b"\n");
    assert_eq!(
        handshake.next(),
        HandshakeAction::Write(b"BEGIN\r\n".to_vec())
    );
    assert_eq!(handshake.next(), HandshakeAction::Finish);
}

#[test]
fn handshake_with_file_descriptors() {
    let mut handshake = Handshake::new(true, 10);
    assert_eq!(
        handshake.next(),
        HandshakeAction::Write(b"\0AUTH EXTERNAL A\r\n".to_vec())
    );
    handshake.received(b"OK\r\n");
    assert_eq!(
        handshake.next(),
        HandshakeAction::Write(b"NEGOTIATE_UNIX_FD\r\n".to_vec())
    );
    assert_eq!(handshake.next(), HandshakeAction::Read(512));
    handshake.received(b"AGREE_UNIX_FD\r\n");
    assert_eq!(
        handshake.next(),
        HandshakeAction::Write(b"BEGIN\r\n".to_vec())
    );
    assert_eq!(handshake.next(), HandshakeAction::Finish);
}

#[test]
fn failed_handshakes() {
    let mut handshake = Handshake::new(true, 1);
    handshake.next();
    handshake.received(b"REJECTED EXTERNAL\r\n");
    assert_eq!(
        handshake.next(),
        HandshakeAction::Fail(HandshakeError::AuthFailed)
    );

    let mut handshake = Handshake::new(true, 1);
    handshake.next();
    handshake.received(b"OK\r\n");
    handshake.next();
    handshake.received(b"ERROR no descriptors\r\n");
    assert_eq!(
        handshake.next(),
        HandshakeAction::Fail(HandshakeError::NoUnixFds)
    );

    let mut handshake = Handshake::new(false, 1);
    handshake.next();
    handshake.received(b"OK");
    handshake.received(b"");
    assert_eq!(
        handshake.next(),
        HandshakeAction::Fail(HandshakeError::HungUp)
    );

    let mut handshake = Handshake::new(false, 1);
    handshake.next();
    let mut long = b"OK".to_vec();
    long.resize(MAX_LINE, b' ');
    handshake.received(&long);
    assert_eq!(
        handshake.next(),
        HandshakeAction::Fail(HandshakeError::AuthFailed)
    );
}

#[test]
fn answers() {
    assert_eq!(starts_with(b"", b"OK"), Answer::Unknown);
    assert_eq!(starts_with(b"OK", b"OK"), Answer::Unknown);
    assert_eq!(starts_with(b"NO", b"OK"), Answer::Rejected);
    assert_eq!(starts_with(b"OK x\r\nmore", b"OK"), Answer::Accepted);
}
