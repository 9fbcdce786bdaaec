//! Routing of calls and of signals.
use std::cmp::Ordering;

use rand::seq::SliceRandom;
use rand::thread_rng;

use async_rustbus::routing::hierarchy::{CallAction, CallHierarchy, Route};
use async_rustbus::routing::replies::{INTRO_END, INTRO_START};
use async_rustbus::routing::rule_set::{queue_sig, RuleSet};
use async_rustbus::routing::rules::Match;
use async_rustbus::routing::MsgQueue;
use async_rustbus::rustbus_core::message_builder::{MarshalledMessage, MessageBuilder};
use async_rustbus::rustbus_core::path::ObjectPath;
use async_rustbus::rustbus_core::{MessageType, Serial};

fn path(p: &str) -> ObjectPath<'_> {
    ObjectPath::new(p).unwrap()
}

#[test]
fn call_hierarchy_insert() {
    let mut hierarchy = CallHierarchy::new();
    hierarchy.insert_path(path("/usr/local/bin"), CallAction::Queue);
    assert_eq!(
        hierarchy.get_action(path("/usr/local/bin")).unwrap(),
        CallAction::Queue
    );
    assert_eq!(
        hierarchy.get_action(path("/usr/local")).unwrap(),
        CallAction::Nothing
    );
    assert_eq!(
        hierarchy.get_action(path("/usr")).unwrap(),
        CallAction::Nothing
    );
    assert_eq!(hierarchy.get_action(path("/")).unwrap(), CallAction::Drop);
    assert!(hierarchy.is_match(path("/usr/local/bin"), path("/usr/local/bin/echo")));
    assert!(hierarchy.is_match(path("/usr/local/bin"), path("/usr/local/bin")));
    assert!(!hierarchy.is_match(path("/usr/local"), path("/usr/local")));
    assert!(!hierarchy.is_match(path("/usr"), path("/usr/local")));
    assert!(!hierarchy.is_match(path("/"), path("/usr/local/bin")));
    assert!(!hierarchy.is_match(path("/"), path("/usr/local")));
    hierarchy.insert_path(path("/"), CallAction::Queue);
    assert!(hierarchy.is_match(path("/"), path("/usr/local")));
    hierarchy.insert_path(path("/var"), CallAction::Exact);
    hierarchy.insert_path(path("/var/log/journal"), CallAction::Queue);
    assert!(hierarchy.is_match(path("/var/log/journal"), path("/var/log/journal")));
    assert!(hierarchy.is_match(path("/var"), path("/var/log")));
    assert!(!hierarchy.is_match(path("/"), path("/var/log")));
    assert!(!hierarchy.is_match(path("/"), path("/var")));
}

#[test]
fn trimming() {
    let mut hierarchy = CallHierarchy::new();
    hierarchy.insert_path(path("/usr/local/bin"), CallAction::Queue);
    hierarchy.insert_path(path("/usr/local/bin/hello/find"), CallAction::Queue);
    hierarchy.insert_path(path("/usr/local/bin/hello/find"), CallAction::Nothing);
    hierarchy.insert_path(path("/usr/local/bin"), CallAction::Nothing);
    println!("{:#?}", hierarchy);
    assert!(hierarchy.is_trimmed());
    hierarchy.insert_path(path("/usr/local/bin"), CallAction::Queue);
    hierarchy.insert_path(path("/usr/local/bin/hello/find"), CallAction::Queue);
    hierarchy.insert_path(path("/usr/local/bin"), CallAction::Nothing);
    hierarchy.insert_path(path("/usr/local/bin/hello/find"), CallAction::Nothing);
    assert!(hierarchy.is_trimmed());
}

#[test]
fn match_order() {
    let mut w_sender = Match::new();
    w_sender.sender("org.freedesktop.DBus");
    let mut w_path = Match::new();
    w_path.path("/hello");
    let mut w_namespace0 = Match::new();
    w_namespace0.path_namespace("/org");
    let mut w_namespace1 = Match::new();
    w_namespace1.path_namespace("/org/freedesktop");
    let mut w_interface = Match::new();
    w_interface.interface("org.freedesktop.DBus");
    let mut w_member = Match::new();
    w_member.member("Peer");
    let mut array = [
        &w_sender,
        &w_path,
        &w_namespace0,
        &w_namespace1,
        &w_interface,
        &w_member,
    ];
    let mut rng = thread_rng();
    array.shuffle(&mut rng);
    array.sort_unstable_by(|a, b| a.cmp(b));
    assert!(std::ptr::eq(&w_sender, array[0]));
    assert!(std::ptr::eq(&w_path, array[1]));
    assert!(std::ptr::eq(&w_namespace1, array[2]));
    assert!(std::ptr::eq(&w_namespace0, array[3]));
    assert!(std::ptr::eq(&w_interface, array[4]));
    assert!(std::ptr::eq(&w_member, array[5]));
}

#[test]
fn matches_single() {
    let m1 = Match::new().interface("io.test.Test1").clone();
    let mut m1_q = m1.clone();
    m1_q.queue = Some(MsgQueue::new());

    let m2 = Match::new().member("TestSig1").clone();
    let mut m2_q = m2.clone();
    m2_q.queue = Some(MsgQueue::new());

    let mut m3 = m2.clone();
    m3.interface = m1.interface.clone();
    let mut m3_q = m3.clone();
    m3_q.queue = Some(MsgQueue::new());

    let m4 = Match::new().path_namespace("/io/test").clone();
    let mut m4_q = m4.clone();
    m4_q.queue = Some(MsgQueue::new());

    let m5 = Match::new().path("/io/test/specific").clone();
    let mut m5_q = m5.clone();
    m5_q.queue = Some(MsgQueue::new());

    let m6 = Match::new().sender("io.test_sender").clone();
    let mut m6_q = m6.clone();
    m6_q.queue = Some(MsgQueue::new());

    let empty_match = Match::new();
    let mut msg = MessageBuilder::new()
        .signal("io.test.Test1", "TestSig1", "/")
        .build();
    msg.dynheader.sender = Some("io.other".into());

    assert!(empty_match.matches(&msg));
    assert!(m1.matches(&msg));
    assert!(m1_q.matches(&msg));
    assert!(m2.matches(&msg));
    assert!(m2_q.matches(&msg));
    assert!(m3.matches(&msg));
    assert!(m3_q.matches(&msg));
    assert!(!m4.matches(&msg));
    assert!(!m4_q.matches(&msg));
    assert!(!m5.matches(&msg));
    assert!(!m5_q.matches(&msg));
    assert!(!m6.matches(&msg));
    assert!(!m6_q.matches(&msg));

    let mut other_if = Some("io.test.Test2".to_string());
    std::mem::swap(&mut msg.dynheader.interface, &mut other_if);
    assert!(!m1.matches(&msg));
    assert!(!m1_q.matches(&msg));
    assert!(m2.matches(&msg));
    assert!(m2_q.matches(&msg));
    assert!(!m3.matches(&msg));
    assert!(!m3_q.matches(&msg));
    std::mem::swap(&mut msg.dynheader.interface, &mut other_if);

    msg.dynheader.member = Some("TestSig2".into());
    assert!(m1.matches(&msg));
    assert!(m1_q.matches(&msg));
    assert!(!m2.matches(&msg));
    assert!(!m2_q.matches(&msg));
    assert!(!m3.matches(&msg));
    assert!(!m3_q.matches(&msg));

    msg.dynheader.object = Some("/io/test".into());
    assert!(m4.matches(&msg));
    assert!(m4_q.matches(&msg));
    assert!(!m5.matches(&msg));
    assert!(!m5_q.matches(&msg));

    msg.dynheader.object = Some("/io/test/specific".into());
    assert!(m4.matches(&msg));
    assert!(m4_q.matches(&msg));
    assert!(m5.matches(&msg));
    assert!(m5_q.matches(&msg));

    msg.dynheader.object = Some("/io/test/specific/too".into());
    assert!(m4.matches(&msg));
    assert!(m4_q.matches(&msg));
    assert!(!m5.matches(&msg));
    assert!(!m5_q.matches(&msg));

    msg.dynheader.sender = Some("io.test_sender".into());
    assert!(m6.matches(&msg));
    assert!(m6_q.matches(&msg));
    assert!(empty_match.matches(&msg));
}

#[test]
fn matches_is_empty() {
    assert!(Match::new().is_empty());
    let mut me_q = Match::new();
    me_q.queue = Some(MsgQueue::new());
    assert!(me_q.is_empty());
}

// ---------------------------------------------------------------------------
// Calls
// ---------------------------------------------------------------------------

fn call(object: &str, interface: &str) -> MarshalledMessage {
    let mut msg = MessageBuilder::new()
        .call("Introspect")
        .on(object)
        .with_interface(interface)
        .at("io.test")
        .build();
    msg.dynheader.sender = Some(":1.7".to_string());
    msg.dynheader.serial = Serial::new(9);
    msg
}

fn is_queued(hierarchy: &CallHierarchy, p: &str) -> bool {
    matches!(hierarchy.route(path(p)), Route::Queue(_))
}

fn is_dropped(hierarchy: &CallHierarchy, p: &str) -> bool {
    matches!(hierarchy.route(path(p)), Route::Dropped)
}

fn introspected<'a>(hierarchy: &'a CallHierarchy, p: &str) -> Option<Vec<&'a str>> {
    match hierarchy.route(path(p)) {
        Route::Intro(mut names) => {
            names.sort();
            Some(names)
        }
        _ => None,
    }
}

#[test]
fn calls_are_dropped_by_default() {
    let hierarchy = CallHierarchy::new();
    assert!(is_dropped(&hierarchy, "/"));
    assert!(is_dropped(&hierarchy, "/a/b/c"));
    let reply = hierarchy.send(call("/a", "io.test.If")).unwrap_err();
    assert_eq!(reply.typ, MessageType::Error);
    assert_eq!(reply.dynheader.error_name.as_deref(), Some("UnknownObject"));
    assert_eq!(reply.dynheader.destination.as_deref(), Some(":1.7"));
    assert_eq!(reply.dynheader.response_serial, Serial::new(9));
    assert_eq!(reply.get_sig(), "");
}

#[test]
fn nearest_handler_decides() {
    let mut hierarchy = CallHierarchy::new();
    hierarchy.insert_path(path("/a"), CallAction::Queue);
    hierarchy.insert_path(path("/a/b/c"), CallAction::Drop);
    hierarchy.insert_path(path("/x"), CallAction::Exact);
    assert!(is_queued(&hierarchy, "/a"));
    assert!(is_queued(&hierarchy, "/a/b"));
    assert!(is_queued(&hierarchy, "/a/z/y"));
    assert!(is_dropped(&hierarchy, "/a/b/c"));
    assert!(is_dropped(&hierarchy, "/a/b/c/d"));
    assert!(is_queued(&hierarchy, "/x"));
    assert!(is_dropped(&hierarchy, "/x/y"));
    hierarchy.insert_path(path("/"), CallAction::Nothing);
    assert!(matches!(hierarchy.route(path("/q")), Route::Unhandled));
    let reply = hierarchy.send(call("/q", "io.test.If")).unwrap_err();
    assert_eq!(reply.dynheader.error_name.as_deref(), Some("UnknownObject"));
}

#[test]
fn exact_handler_matches_more_than_it_queues() {
    let mut hierarchy = CallHierarchy::new();
    hierarchy.insert_path(path("/var"), CallAction::Exact);
    hierarchy.insert_path(path("/var/log/journal"), CallAction::Queue);
    assert!(hierarchy.is_match(path("/var"), path("/var/log")));
    assert!(is_dropped(&hierarchy, "/var/log"));
    assert!(!hierarchy.is_match(path("/var"), path("/var/spool")));
}

#[test]
fn introspection_lists_known_children() {
    let mut hierarchy = CallHierarchy::new();
    hierarchy.insert_path(path("/"), CallAction::Intro);
    hierarchy.insert_path(path("/usr/local/lib"), CallAction::Queue);
    hierarchy.insert_path(path("/usr/bin"), CallAction::Exact);
    hierarchy.insert_path(path("/tmp"), CallAction::Drop);
    assert_eq!(introspected(&hierarchy, "/"), Some(vec!["usr"]));
    assert_eq!(introspected(&hierarchy, "/usr"), Some(vec!["bin", "local"]));
    assert_eq!(introspected(&hierarchy, "/usr/nothing"), Some(vec![]));
    assert!(is_dropped(&hierarchy, "/nothing"));
    assert!(is_dropped(&hierarchy, "/tmp"));
}

#[test]
fn introspection_answer() {
    let mut hierarchy = CallHierarchy::new();
    hierarchy.insert_path(path("/"), CallAction::Intro);
    hierarchy.insert_path(path("/usr"), CallAction::Queue);
    let reply = hierarchy
        .send(call("/", "org.freedesktop.DBus.Introspectable"))
        .unwrap_err();
    assert_eq!(reply.typ, MessageType::Reply);
    assert_eq!(reply.dynheader.destination.as_deref(), Some(":1.7"));
    assert_eq!(reply.dynheader.response_serial, Serial::new(9));
    let text: &str = reply.body.parser().get().unwrap();
    let expected = format!("{}\t<node name=\"usr\"/>\n{}", INTRO_START, INTRO_END);
    assert_eq!(text, expected);

    let reply = hierarchy.send(call("/", "io.test.Other")).unwrap_err();
    assert_eq!(reply.typ, MessageType::Error);
    assert_eq!(
        reply.dynheader.error_name.as_deref(),
        Some("UnknownInterface")
    );
    let mut msg = call("/", "io.test.Other");
    msg.dynheader.interface = None;
    let reply = hierarchy.send(msg).unwrap_err();
    assert_eq!(
        reply.dynheader.error_name.as_deref(),
        Some("UnknownInterface")
    );
}

#[test]
fn queued_calls_come_out() {
    let mut hierarchy = CallHierarchy::new();
    hierarchy.insert_path(path("/a"), CallAction::Queue);
    let receiver = hierarchy.get_queue(path("/a")).unwrap().get_receiver();
    assert!(hierarchy.send(call("/a/b", "io.test.If")).is_ok());
    assert!(hierarchy.send(call("/a", "io.test.If")).is_ok());
    let first = receiver.try_recv().unwrap();
    assert_eq!(first.dynheader.object.as_deref(), Some("/a/b"));
    let second = receiver.try_recv().unwrap();
    assert_eq!(second.dynheader.object.as_deref(), Some("/a"));
    assert!(receiver.try_recv().is_err());
    assert!(hierarchy.get_queue(path("/")).is_none());
    assert!(hierarchy.get_queue(path("/b")).is_none());
}

#[test]
fn closed_queue_answers_like_a_missing_object() {
    let mut hierarchy = CallHierarchy::new();
    hierarchy.insert_path(path("/a"), CallAction::Queue);
    hierarchy.get_queue(path("/a")).unwrap().get_receiver().close();
    let reply = hierarchy.send(call("/a", "io.test.If")).unwrap_err();
    assert_eq!(reply.dynheader.error_name.as_deref(), Some("UnknownObject"));
}

#[test]
fn setting_an_action_twice_and_taking_it_away() {
    let mut hierarchy = CallHierarchy::new();
    hierarchy.insert_path(path("/a/b"), CallAction::Queue);
    hierarchy.insert_path(path("/a"), CallAction::Intro);
    hierarchy.insert_path(path("/a"), CallAction::Exact);
    assert_eq!(hierarchy.get_action(path("/a")), Some(CallAction::Exact));
    assert_eq!(hierarchy.get_action(path("/a/b")), Some(CallAction::Queue));
    hierarchy.insert_path(path("/a"), CallAction::Nothing);
    assert_eq!(hierarchy.get_action(path("/a")), Some(CallAction::Nothing));
    assert_eq!(hierarchy.get_action(path("/a/b")), Some(CallAction::Queue));
    hierarchy.insert_path(path("/a/b"), CallAction::Nothing);
    assert_eq!(hierarchy.get_action(path("/a/b")), None);
    assert_eq!(hierarchy.get_action(path("/a")), None);
    assert!(hierarchy.is_trimmed());
}

#[test]
fn taking_away_an_action_keeps_the_others() {
    let mut hierarchy = CallHierarchy::new();
    hierarchy.insert_path(path("/usr/local"), CallAction::Queue);
    hierarchy.insert_path(path("/c"), CallAction::Queue);
    hierarchy.insert_path(path("/usr/foo"), CallAction::Nothing);
    hierarchy.insert_path(path("/usr/x/y"), CallAction::Nothing);
    assert_eq!(
        hierarchy.get_action(path("/usr/local")),
        Some(CallAction::Queue)
    );
    assert_eq!(hierarchy.get_action(path("/usr/foo")), None);
    hierarchy.insert_path(path("/c/x"), CallAction::Nothing);
    assert_eq!(hierarchy.get_action(path("/c")), Some(CallAction::Queue));
    hierarchy.insert_path(path("/d"), CallAction::Nothing);
    assert_eq!(hierarchy.get_action(path("/")), Some(CallAction::Drop));
    hierarchy.insert_path(path("/usr/local"), CallAction::Nothing);
    assert_eq!(hierarchy.get_action(path("/usr")), None);
}

// ---------------------------------------------------------------------------
// Signals
// ---------------------------------------------------------------------------

fn signal(interface: &str, member: &str, object: &str) -> MarshalledMessage {
    MessageBuilder::new()
        .signal(interface, member, object)
        .build()
}

#[test]
fn rule_as_text() {
    assert_eq!(Match::new().match_string(), "");
    let mut rule = Match::new();
    rule.sender("io.a").path("/p").interface("io.b").member("M");
    assert_eq!(
        rule.match_string(),
        "sender='io.a',path='/p',interface='io.b',member='M'"
    );
    rule.path_namespace("/n");
    assert_eq!(
        rule.match_string(),
        "sender='io.a',path_namespace='/n',interface='io.b',member='M'"
    );
    assert!(rule.path.is_none());
    rule.path("/p");
    assert!(rule.path_namespace.is_none());
    let mut one = Match::new();
    one.member("M");
    assert_eq!(one.match_string(), "member='M'");
}

#[test]
fn only_signals_match() {
    let mut msg = signal("io.a", "M", "/");
    assert!(Match::new().matches(&msg));
    msg.typ = MessageType::Call;
    assert!(!Match::new().matches(&msg));
    let mut rule = Match::new();
    rule.path_namespace("/");
    let mut msg = signal("io.a", "M", "/x");
    assert!(rule.matches(&msg));
    msg.dynheader.object = None;
    assert!(!rule.matches(&msg));
}

#[test]
fn namespaces_go_by_elements() {
    let mut rule = Match::new();
    rule.path_namespace("/io/test");
    assert!(rule.matches(&signal("io.a", "M", "/io/test/a")));
    assert!(!rule.matches(&signal("io.a", "M", "/io/testing")));
    rule.path_namespace("/io/test/");
    assert!(rule.matches(&signal("io.a", "M", "/io/test")));
    rule.path_namespace("io");
    assert!(!rule.matches(&signal("io.a", "M", "/io")));
    rule.path_namespace("");
    assert!(rule.matches(&signal("io.a", "M", "/io")));
}

#[test]
fn rules_are_equal_without_their_queues() {
    let mut a = Match::new();
    a.member("M");
    a.queue = Some(MsgQueue::new());
    let b = a.clone();
    assert!(b.queue.is_none());
    assert!(a == b);
    assert_eq!(a.cmp(&b), Ordering::Equal);
    let mut c = b.clone();
    c.interface("io.a");
    assert!(a != c);
    assert_eq!(c.cmp(&a), Ordering::Less);
    assert_eq!(a.cmp(&c), Ordering::Greater);
}

#[test]
fn texts_are_compared_last() {
    let mut a = Match::new();
    a.member("A");
    let mut b = Match::new();
    b.member("B");
    let mut ab = Match::new();
    ab.member("AB");
    assert_eq!(a.cmp(&b), Ordering::Less);
    assert_eq!(a.cmp(&ab), Ordering::Less);
    assert_eq!(b.cmp(&ab), Ordering::Greater);
    let mut n1 = Match::new();
    n1.path_namespace("/b");
    let mut n2 = Match::new();
    n2.path_namespace("/a/c");
    assert_eq!(n2.cmp(&n1), Ordering::Less);
}

#[test]
fn rule_set_keeps_the_most_specific_first() {
    // The texts of unrelated namespaces would put these three rules in a circle.
    let mut a = Match::new();
    a.path_namespace("/y/b");
    let mut b = Match::new();
    b.path_namespace("/y").interface("io.a");
    let mut c = Match::new();
    c.path_namespace("/a");
    assert_eq!(a.cmp(&b), Ordering::Less);
    assert_eq!(b.cmp(&c), Ordering::Less);
    assert_eq!(c.cmp(&a), Ordering::Less);
    let orders: [[&Match; 3]; 6] = [
        [&a, &b, &c],
        [&a, &c, &b],
        [&b, &a, &c],
        [&b, &c, &a],
        [&c, &a, &b],
        [&c, &b, &a],
    ];
    for order in orders {
        let mut set = RuleSet::new();
        for rule in order {
            assert!(set.insert(rule));
        }
        let receiver = set.get_queue(&a).unwrap().get_receiver();
        assert!(queue_sig(set.as_slice(), signal("io.a", "M", "/y/b")).is_none());
        assert!(receiver.try_recv().is_ok());
    }
}

#[test]
fn rule_set_insert_and_remove() {
    let mut a = Match::new();
    a.member("M");
    let mut b = Match::new();
    b.sender("io.a");
    let mut set = RuleSet::new();
    assert!(set.insert(&a));
    assert!(!set.insert(&a));
    assert!(set.insert(&b));
    assert_eq!(set.as_slice().len(), 2);
    assert!(set.as_slice()[0] == b);
    assert!(set.as_slice()[1] == a);
    assert!(set.remove(&b));
    assert!(!set.remove(&b));
    assert_eq!(set.as_slice().len(), 1);
    assert!(set.get_queue(&b).is_none());
    assert!(set.get_queue(&a).is_some());
}

#[test]
fn unmatched_signals_come_back() {
    let mut set = RuleSet::new();
    let mut a = Match::new();
    a.member("M");
    set.insert(&a);
    let back = queue_sig(set.as_slice(), signal("io.a", "Other", "/")).unwrap();
    assert_eq!(back.dynheader.member.as_deref(), Some("Other"));
    let receiver = set.get_queue(&a).unwrap().get_receiver();
    assert!(queue_sig(set.as_slice(), signal("io.a", "M", "/")).is_none());
    assert_eq!(
        receiver.try_recv().unwrap().dynheader.member.as_deref(),
        Some("M")
    );
    receiver.close();
    assert!(queue_sig(set.as_slice(), signal("io.a", "M", "/")).is_some());
}

#[test]
fn the_empty_rule_is_last() {
    let rules = [
        Match::new().sender("a.b").clone(),
        Match::new().path("/p").clone(),
        Match::new().path_namespace("/").clone(),
        Match::new().interface("a.b").clone(),
        Match::new().member("M").clone(),
    ];
    for rule in &rules {
        assert_eq!(rule.cmp(&Match::new()), Ordering::Less);
    }
}

#[test]
fn introspection_walks_down_the_tree() {
    let mut hierarchy = CallHierarchy::new();
    hierarchy.insert_path(path("/"), CallAction::Intro);
    hierarchy.insert_path(path("/usr/local/lib/libdbus"), CallAction::Intro);
    hierarchy.insert_path(path("/usr/local/lib/libssl"), CallAction::Intro);
    hierarchy.insert_path(path("/usr/local/bin/ls"), CallAction::Intro);
    hierarchy.insert_path(path("/tmp"), CallAction::Drop);
    hierarchy.insert_path(path("/tmp/log"), CallAction::Queue);
    let intro = |object: &str| {
        let reply = hierarchy
            .send(call(object, "org.freedesktop.DBus.Introspectable"))
            .unwrap_err();
        assert_eq!(reply.typ, MessageType::Reply);
        reply.body.parser().get::<String>().unwrap()
    };
    let text = intro("/");
    assert!(text.contains("<node name=\"usr\"/>"));
    assert!(!text.contains("<node name=\"tmp\"/>"));
    assert!(intro("/usr").contains("<node name=\"local\"/>"));
    let text = intro("/usr/local");
    assert!(text.contains("<node name=\"lib\"/>"));
    assert!(text.contains("<node name=\"bin\"/>"));
    let text = intro("/usr/local/lib");
    assert!(text.contains("<node name=\"libdbus\"/>"));
    assert!(text.contains("<node name=\"libssl\"/>"));
    assert!(intro("/usr/local/bin").contains("<node name=\"ls\"/>"));
}

#[test]
fn queue_without_limit() {
    let queue = MsgQueue::new();
    let receiver = queue.get_receiver();
    assert_eq!(receiver.capacity(), None);
    assert!(receiver.is_empty());
    for _ in 0..1000 {
        assert!(queue.send(MarshalledMessage::new()).is_ok());
    }
    assert_eq!(receiver.len(), 1000);
}
