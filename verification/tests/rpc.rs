//! What becomes of messages, and what answers mean.
use async_rustbus::conn::recv::{RecvError, RecvState};
use async_rustbus::routing::{CallAction, Match};
use async_rustbus::rpc::{
    expects_reply, hello_answer, match_answer, name_granted, Event, HelloError, RecvData,
    SerialCounter, Wanted, NO_REPLY_EXPECTED,
};
use async_rustbus::rustbus_core::message_builder::{
    MarshalledMessage, MarshalledMessageBody, MessageBuilder,
};
use async_rustbus::rustbus_core::path::ObjectPath;
use async_rustbus::rustbus_core::{ByteOrder, MessageType, Serial};

fn serial(value: u32) -> Serial {
    Serial::new(value).unwrap()
}

fn data() -> RecvData<&'static str> {
    RecvData::new(RecvState::new(false))
}

fn reply(to: u32) -> MarshalledMessage {
    let mut msg = MarshalledMessage::new();
    msg.typ = MessageType::Reply;
    msg.dynheader.response_serial = Serial::new(to);
    msg
}

fn error(text: &str) -> MarshalledMessage {
    let mut msg = reply(1);
    msg.typ = MessageType::Error;
    msg.dynheader.error_name = Some("io.test.Error".to_string());
    msg.body.push_param(text).unwrap();
    msg
}

fn call(object: &str) -> MarshalledMessage {
    MessageBuilder::new()
        .call("M")
        .on(object)
        .with_interface("io.test.If")
        .build()
}

fn signal(member: &str) -> MarshalledMessage {
    MessageBuilder::new().signal("io.a", member, "/s").build()
}

fn path(p: &str) -> ObjectPath<'_> {
    ObjectPath::new(p).unwrap()
}

#[test]
fn replies_are_expected_of_calls() {
    let mut msg = call("/");
    assert!(expects_reply(&msg));
    msg.flags = NO_REPLY_EXPECTED;
    assert!(!expects_reply(&msg));
    msg.flags = 2;
    assert!(expects_reply(&msg));
    assert!(!expects_reply(&signal("S")));
    assert!(!expects_reply(&reply(1)));
}

#[test]
fn serials_count_up() {
    let mut counter = SerialCounter::new();
    assert_eq!(counter.allocate_idx().get(), 1);
    assert_eq!(counter.allocate_idx().get(), 2);
    assert_eq!(counter.allocate_idx().get(), 3);
}

#[test]
fn answers_go_to_whoever_waits() {
    let mut data = data();
    data.insert_sender(serial(4), "four");
    data.insert_sender(serial(5), "five");
    let wanted = Wanted::Response(serial(9));
    match data.handle_msg(&wanted, reply(5)).unwrap() {
        Event::Deliver(to, msg) => {
            assert_eq!(to, "five");
            assert_eq!(msg.dynheader.response_serial, Serial::new(5));
        }
        _ => panic!("not delivered"),
    }
    assert!(matches!(
        data.handle_msg(&wanted, reply(5)),
        Ok(Event::Ignored(_))
    ));
    data.remove_sender(serial(4));
    assert!(matches!(
        data.handle_msg(&wanted, reply(4)),
        Ok(Event::Ignored(_))
    ));
    assert!(matches!(
        data.handle_msg(&wanted, reply(9)),
        Ok(Event::Wanted(_))
    ));
    let mut err = error("x");
    err.dynheader.response_serial = Serial::new(9);
    assert!(matches!(
        data.handle_msg(&wanted, err),
        Ok(Event::Wanted(_))
    ));
}

#[test]
fn signals_go_to_their_rule() {
    let mut data = data();
    let mut rule = Match::new();
    rule.member("S");
    let add = data.insert_sig_match(&rule).unwrap();
    assert_eq!(add.dynheader.member.as_deref(), Some("AddMatch"));
    assert_eq!(add.body.parser().get::<&str>().unwrap(), "member='S'");
    assert!(data.insert_sig_match(&rule).is_none());

    let receiver = data.get_receiver(&Wanted::Signal(&rule)).unwrap();
    let wanted = Wanted::Response(serial(1));
    assert!(matches!(
        data.handle_msg(&wanted, signal("S")),
        Ok(Event::Queued)
    ));
    assert_eq!(
        receiver.try_recv().unwrap().dynheader.member.as_deref(),
        Some("S")
    );
    assert!(matches!(
        data.handle_msg(&wanted, signal("T")),
        Ok(Event::Ignored(_))
    ));
    assert!(matches!(
        data.handle_msg(&Wanted::Signal(&rule), signal("S")),
        Ok(Event::Wanted(_))
    ));

    let remove = data.remove_sig_match(&rule).unwrap();
    assert_eq!(remove.dynheader.member.as_deref(), Some("RemoveMatch"));
    assert!(data.remove_sig_match(&rule).is_none());
    assert!(data.get_receiver(&Wanted::Signal(&rule)).is_none());
    assert!(matches!(
        data.handle_msg(&wanted, signal("S")),
        Ok(Event::Ignored(_))
    ));
}

#[test]
fn rules_keep_their_queues() {
    let mut data = data();
    let (mut first, mut second, mut third) = (Match::new(), Match::new(), Match::new());
    first.member("A");
    second.member("B");
    third.member("C").sender("io.test");
    data.insert_sig_match(&first).unwrap();
    data.insert_sig_match(&second).unwrap();
    let nobody = Wanted::Response(serial(1));
    assert!(matches!(
        data.handle_msg(&nobody, signal("A")),
        Ok(Event::Queued)
    ));
    assert!(matches!(
        data.handle_msg(&nobody, signal("B")),
        Ok(Event::Queued)
    ));
    data.insert_sig_match(&third).unwrap();
    data.remove_sig_match(&second).unwrap();
    let receiver = data.get_receiver(&Wanted::Signal(&first)).unwrap();
    assert_eq!(receiver.len(), 1);
    let msg = receiver.try_recv().unwrap();
    assert_eq!(msg.dynheader.member.as_deref(), Some("A"));
    assert!(data
        .get_receiver(&Wanted::Signal(&third))
        .unwrap()
        .is_empty());
}

#[test]
fn refused_rules_are_taken_away() {
    let mut data = data();
    let mut rule = Match::new();
    rule.member("S");
    data.insert_sig_match(&rule).unwrap();
    assert_eq!(data.sig_match_answered(&rule, &reply(1)), Ok(()));
    assert!(data.get_receiver(&Wanted::Signal(&rule)).is_some());
    assert_eq!(
        data.sig_match_answered(&rule, &error("no")),
        Err("no".to_string())
    );
    assert!(data.get_receiver(&Wanted::Signal(&rule)).is_none());
}

#[test]
fn calls_go_to_their_path() {
    let mut data = data();
    data.hierarchy.insert_path(path("/a"), CallAction::Queue);
    let receiver = data.get_receiver(&Wanted::Call(path("/a"))).unwrap();
    assert!(data.get_receiver(&Wanted::Call(path("/b"))).is_none());
    assert!(data.get_receiver(&Wanted::Response(serial(1))).is_none());
    let wanted = Wanted::Response(serial(1));
    assert!(matches!(
        data.handle_msg(&wanted, call("/a/b")),
        Ok(Event::Queued)
    ));
    assert_eq!(
        receiver.try_recv().unwrap().dynheader.object.as_deref(),
        Some("/a/b")
    );
    assert!(matches!(
        data.handle_msg(&Wanted::Call(path("/a")), call("/a/b")),
        Ok(Event::Wanted(_))
    ));
    match data.handle_msg(&wanted, call("/b")) {
        Ok(Event::Answer(msg)) => {
            assert_eq!(msg.dynheader.error_name.as_deref(), Some("UnknownObject"))
        }
        _ => panic!("no answer"),
    }
}

#[test]
fn incomplete_headers_break_the_protocol() {
    let mut data = data();
    let wanted = Wanted::Response(serial(1));
    let mut nameless = reply(1);
    nameless.dynheader.response_serial = None;
    assert!(matches!(
        data.handle_msg(&wanted, nameless),
        Err(RecvError::MissingField)
    ));
    let mut objectless = call("/");
    objectless.dynheader.object = None;
    assert!(matches!(
        data.handle_msg(&wanted, objectless),
        Err(RecvError::MissingField)
    ));
    assert!(matches!(
        data.handle_msg(&wanted, MarshalledMessage::new()),
        Err(RecvError::MissingField)
    ));
}

#[test]
fn messages_are_taken_from_the_stream() {
    let mut data = data();
    data.insert_sender(serial(4), "four");
    let wanted = Wanted::Response(serial(5));
    assert!(matches!(data.queue_msg(&wanted), Ok(Event::NeedMore)));
    let mut bytes = Vec::new();
    for to in [4, 5] {
        let mut header = Vec::new();
        reply(to).marshal_header(serial(1), &mut header).unwrap();
        bytes.extend_from_slice(&header);
    }
    data.state.received(&bytes, Vec::new()).unwrap();
    assert!(matches!(
        data.queue_msg(&wanted),
        Ok(Event::Deliver("four", _))
    ));
    assert!(matches!(data.queue_msg(&wanted), Ok(Event::Wanted(_))));
    assert!(matches!(data.queue_msg(&wanted), Ok(Event::NeedMore)));
    data.state.received(&[0; 12], Vec::new()).unwrap();
    assert!(matches!(
        data.queue_msg(&wanted),
        Err(RecvError::BadHeader)
    ));
}

#[test]
fn answers_to_hello() {
    let mut msg = reply(1);
    msg.body.push_param(":1.42").unwrap();
    assert_eq!(hello_answer(&msg).unwrap(), ":1.42");
    assert!(matches!(hello_answer(&reply(1)), Err(HelloError::NoName)));
    let mut number = reply(1);
    number.body.push_param(5u32).unwrap();
    assert!(matches!(hello_answer(&number), Err(HelloError::NoName)));
    match hello_answer(&error("io.a")) {
        Err(HelloError::Refused(text)) => assert_eq!(
            text,
            "Hello message failed with: Unable to parse message: "
        ),
        _ => panic!("not refused"),
    }
    let mut pair = error("");
    pair.body = MarshalledMessageBody::from_parts(
        vec![
            1, 0, 0, 0, b'a', 0, 0, 0, 2, 0, 0, 0, b'b', b'c', 0,
        ],
        vec![],
        "(ss)".to_string(),
        ByteOrder::LittleEndian,
    );
    match hello_answer(&pair) {
        Err(HelloError::Refused(text)) => assert_eq!(text, "Hello message failed with: a: bc"),
        _ => panic!("not refused"),
    }
    assert!(matches!(
        hello_answer(&signal("S")),
        Err(HelloError::Unexpected)
    ));
}

#[test]
fn answers_to_name_requests() {
    for (number, granted) in [(1u32, true), (2, false), (3, false), (4, true)] {
        let mut msg = reply(1);
        msg.body.push_param(number).unwrap();
        assert_eq!(name_granted(&msg), granted);
        msg.typ = MessageType::Error;
        assert!(!name_granted(&msg));
    }
    assert!(!name_granted(&reply(1)));
}

#[test]
fn answers_to_match_requests() {
    assert_eq!(match_answer(&reply(1)), Ok(()));
    assert_eq!(match_answer(&error("why")), Err("why".to_string()));
    let mut empty = reply(1);
    empty.typ = MessageType::Error;
    assert_eq!(
        match_answer(&empty),
        Err("Unknown DBus Error Type!".to_string())
    );
}

#[test]
fn signals_are_sorted_by_their_most_specific_rule() {
    let mut data = data();
    let mut m1 = Match::new();
    m1.path("/io/test/specific");
    let mut m2 = Match::new();
    m2.path_namespace("/io/test");
    let mut m3 = Match::new();
    m3.interface("io.test.Test1");
    let mut m4 = m3.clone();
    m4.member("TestSignal");
    let mut m5 = m4.clone();
    m5.interface = None;
    for rule in [&Match::new(), &m1, &m2, &m3, &m4, &m5] {
        assert!(data.insert_sig_match(rule).is_some());
    }
    let wanted = Wanted::Response(serial(1));
    let mut goes_to = |interface: &str, member: &str, object: &str, rule: &Match| {
        let sig = || MessageBuilder::new().signal(interface, member, object).build();
        assert!(matches!(
            data.handle_msg(&wanted, sig()),
            Ok(Event::Queued)
        ));
        let receiver = data.get_receiver(&Wanted::Signal(rule)).unwrap();
        let got = receiver.try_recv().unwrap();
        assert_eq!(got.dynheader.interface.as_deref(), Some(interface));
        assert_eq!(got.dynheader.member.as_deref(), Some(member));
        assert_eq!(got.dynheader.object.as_deref(), Some(object));
        assert!(matches!(
            data.handle_msg(&Wanted::Signal(rule), sig()),
            Ok(Event::Wanted(_))
        ));
    };
    goes_to("io.test.Test3", "TestSignal2", "/", &Match::new());
    goes_to("io.test.Test2", "TestSignal", "/io/test/specific", &m1);
    goes_to("io.test.Test2", "TestSignal", "/io/test/other", &m2);
    goes_to("io.test.Test2", "TestSignal", "/io/test", &m2);
    goes_to("io.test.Test2", "TestSignal", "/io", &m5);
    goes_to("io.test.Test1", "TestSignal", "/io", &m4);
    goes_to("io.test.Test1", "TestSignal2", "/io", &m3);

    // Whoever waits for a less specific rule does not get the signal.
    let sig = MessageBuilder::new()
        .signal("io.test.Test1", "TestSignal", "/io")
        .build();
    assert!(matches!(
        data.handle_msg(&Wanted::Signal(&m5), sig),
        Ok(Event::Queued)
    ));
}
