//! The calls that are made to the daemon itself.
use vstd::prelude::*;
use vstd::utf8::*;

use super::message_builder::body;
use super::message_builder::body::BodyView;
use super::message_builder::header;
use super::message_builder::header::HeaderView;
use super::message_builder::{MarshalledMessage, MessageBuilder, MessageView};
use super::wire_format;
use super::{ByteOrder, MessageType};
use crate::utils;

verus! {

/// Another connection may take the name over.
pub const DBUS_NAME_FLAG_ALLOW_REPLACEMENT: u32 = 1;

/// The name is taken over, where its owner allows that.
pub const DBUS_NAME_FLAG_REPLACE_EXISTING: u32 = 2;

/// Where the name has an owner, this connection does not wait for it.
pub const DBUS_NAME_FLAG_DO_NOT_QUEUE: u32 = 4;

/// This connection owns the name now.
pub const DBUS_REQUEST_NAME_REPLY_PRIMARY_OWNER: u32 = 1;

/// This connection waits for the name.
pub const DBUS_REQUEST_NAME_REPLY_IN_QUEUE: u32 = 2;

/// The name has another owner.
pub const DBUS_REQUEST_NAME_REPLY_EXISTS: u32 = 3;

/// This connection owned the name before.
pub const DBUS_REQUEST_NAME_REPLY_ALREADY_OWNER: u32 = 4;

/// A call of the daemon.
pub open spec fn daemon_call(member: Seq<char>, body: BodyView) -> MessageView {
    MessageView {
        typ: MessageType::Call,
        flags: 0,
        dynheader: HeaderView {
            member: Some(member),
            object: Some("/org/freedesktop/DBus"@),
            interface: Some("org.freedesktop.DBus"@),
            destination: Some("org.freedesktop.DBus"@),
            ..header::empty_header()
        },
        body,
    }
}

/// A body with a text and a number.
pub open spec fn text_and_number_body(s: Seq<char>, n: u32) -> BodyView {
    let first = body::text_body(s);
    BodyView {
        buf: wire_format::padded(first.buf, 4) + utils::u32_bytes(n, ByteOrder::LittleEndian),
        sig: seq!['s', 'u'],
        ..first
    }
}

fn make_standard_msg(name: &str) -> (msg: MarshalledMessage)
    ensures
        msg@ == daemon_call(name@, body::empty_body(ByteOrder::LittleEndian)),
{
    MessageBuilder::new().call(name).on("/org/freedesktop/DBus").with_interface(
        "org.freedesktop.DBus",
    ).at("org.freedesktop.DBus").build()
}

fn make_text_msg(name: &str, parameter: &str) -> (msg: MarshalledMessage)
    ensures
        msg@ == daemon_call(name@, body::text_body(parameter@)),
{
    let mut msg = make_standard_msg(name);
    let _ = msg.body.push_param(parameter);
    assert(msg.body@.sig =~= seq!['s']);
    msg
}

/// Asks for the name of this connection.
pub fn hello() -> (msg: MarshalledMessage)
    ensures
        msg@ == daemon_call("Hello"@, body::empty_body(ByteOrder::LittleEndian)),
{
    make_standard_msg("Hello")
}

/// Asks for a well known name.
pub fn request_name(name: &str, flags: u32) -> (msg: MarshalledMessage)
    ensures
        msg@ == daemon_call("RequestName"@, text_and_number_body(name@, flags)),
{
    let mut msg = make_text_msg("RequestName", name);
    let _ = msg.body.push_param(flags);
    assert(msg.body@.sig =~= seq!['s', 'u']);
    msg
}

/// Gives a well known name back.
pub fn release_name(name: &str) -> (msg: MarshalledMessage)
    ensures
        msg@ == daemon_call("ReleaseName"@, body::text_body(name@)),
{
    make_text_msg("ReleaseName", name)
}

/// Asks for the signals that match a rule.
pub fn add_match(match_rule: &str) -> (msg: MarshalledMessage)
    ensures
        msg@ == daemon_call("AddMatch"@, body::text_body(match_rule@)),
{
    make_text_msg("AddMatch", match_rule)
}

/// Asks for no more signals that match a rule.
pub fn remove_match(match_rule: &str) -> (msg: MarshalledMessage)
    ensures
        msg@ == daemon_call("RemoveMatch"@, body::text_body(match_rule@)),
{
    make_text_msg("RemoveMatch", match_rule)
}

/// A call of the daemon is a call that is answered, for the object, the interface and the name
/// of the daemon, and it holds the given member and parameters.
pub proof fn law_daemon_call_is_addressed(member: Seq<char>, body: BodyView)
    ensures
        daemon_call(member, body).typ is Call,
        daemon_call(member, body).flags == 0,
        daemon_call(member, body).body == body,
        daemon_call(member, body).dynheader.member == Some(member),
        daemon_call(member, body).dynheader.object == Some("/org/freedesktop/DBus"@),
        daemon_call(member, body).dynheader.interface == Some("org.freedesktop.DBus"@),
        daemon_call(member, body).dynheader.destination == Some("org.freedesktop.DBus"@),
        daemon_call(member, body).dynheader.sender is None,
        daemon_call(member, body).dynheader.error_name is None,
        daemon_call(member, body).dynheader.response_serial is None,
        daemon_call(member, body).dynheader.serial is None,
        daemon_call(member, body).dynheader.signature is None,
        daemon_call(member, body).dynheader.num_fds is None,
{
}

/// The parameters of a request for a name are the name, as text, and behind it, at a multiple of
/// four bytes, the flags.
pub proof fn law_name_and_flags_stand_in_body(name: Seq<char>, flags: u32)
    requires
        encode_utf8(name).len() <= u32::MAX,
    ensures
        ({
            let body = text_and_number_body(name, flags);
            let end = 5 + encode_utf8(name).len();
            let at = utils::align_up(end as int, 4);
            &&& body.byteorder is LittleEndian
            &&& body.fds.len() == 0
            &&& body.sig == seq!['s', 'u']
            &&& header::text_stands_at(body.buf.take(end as int), 0, name, body.byteorder)
            &&& header::number_stands_at(body.buf, at, flags as int, body.byteorder)
            &&& body.buf.len() == at + 4
        }),
{
    body::law_text_stands_in_body(name);
    let first = body::text_body(name);
    let body = text_and_number_body(name, flags);
    let padded = wire_format::padded(first.buf, 4);
    utils::lemma_align_up(first.buf.len() as int, 4);
    assert(body.buf.take(first.buf.len() as int) =~= first.buf);
    utils::lemma_u32_round_trip(flags, ByteOrder::LittleEndian);
    let bytes = utils::u32_bytes(flags, ByteOrder::LittleEndian);
    let at = padded.len() as int;
    assert(body.buf[at] == bytes[0]);
    assert(body.buf[at + 1] == bytes[1]);
    assert(body.buf[at + 2] == bytes[2]);
    assert(body.buf[at + 3] == bytes[3]);
}

/// The numbers by which the daemon and its clients speak of names.
pub proof fn law_name_numbers()
    ensures
        DBUS_NAME_FLAG_ALLOW_REPLACEMENT == 1,
        DBUS_NAME_FLAG_REPLACE_EXISTING == 2,
        DBUS_NAME_FLAG_DO_NOT_QUEUE == 4,
        DBUS_REQUEST_NAME_REPLY_PRIMARY_OWNER == 1,
        DBUS_REQUEST_NAME_REPLY_IN_QUEUE == 2,
        DBUS_REQUEST_NAME_REPLY_EXISTS == 3,
        DBUS_REQUEST_NAME_REPLY_ALREADY_OWNER == 4,
{
}

} // verus!
