//! The answers that are given to calls without anybody else taking part.
use vstd::prelude::*;
use vstd::utf8::*;

use crate::rustbus_core::message_builder::body;
use crate::rustbus_core::message_builder::header;
use crate::rustbus_core::message_builder::header::HeaderView;
use crate::rustbus_core::message_builder::{MarshalledMessage, MessageView};
use crate::rustbus_core::{ByteOrder, MessageType};
use crate::text;

verus! {

/// What the description of an object starts with.
pub const INTRO_START: &'static str = "<!DOCTYPE node PUBLIC \"-//freedesktop//DTD D-BUS Object Introspection 1.0//EN\" \"http://www.freedesktop.org/standards/dbus/1.0/introspect.dtd\">
 <node>
\t<interface name=\"org.freedesktop.DBus.Introspectable\">
\t\t<method name=\"Introspect\">
\t\t\t<arg name=\"xml_data\" type=\"s\" direction=\"out\"/>
\t\t</method>
\t</interface>\n";

/// What the description of an object ends with.
pub const INTRO_END: &'static str = " </node>";

/// What stands before the name of a child in the description of an object.
pub const NODE_START: &'static str = "\t<node name=\"";

/// What stands behind the name of a child in the description of an object.
pub const NODE_END: &'static str = "\"/>\n";

/// The interface of introspection.
pub const INTROSPECTABLE: &'static str = "org.freedesktop.DBus.Introspectable";

/// The error for objects that are not there.
pub const UNKNOWN_OBJECT: &'static str = "UnknownObject";

/// The error for interfaces that an object does not have.
pub const UNKNOWN_INTERFACE: &'static str = "UnknownInterface";

/// The lines that name the children of an object.
pub open spec fn intro_lines(names: Seq<Seq<char>>) -> Seq<char>
    decreases names.len(),
{
    if names.len() == 0 {
        seq![]
    } else {
        intro_lines(names.drop_last()) + NODE_START@ + names.last() + NODE_END@
    }
}

/// The description of an object with the given children.
pub open spec fn intro_text(names: Seq<Seq<char>>) -> Seq<char> {
    INTRO_START@ + intro_lines(names) + INTRO_END@
}

/// The error with the given name that answers a message with the header `h`.
pub open spec fn error_reply(h: HeaderView, name: Seq<char>) -> MessageView {
    MessageView {
        typ: MessageType::Error,
        flags: 0,
        dynheader: header::response_header(h, Some(name)),
        body: body::empty_body(ByteOrder::LittleEndian),
    }
}

/// The answer to an introspection of an object with the given children. A call of another
/// interface, or of none, gets an error.
pub open spec fn intro_reply(h: HeaderView, names: Seq<Seq<char>>) -> MessageView {
    if h.interface == Some(INTROSPECTABLE@) {
        MessageView {
            typ: MessageType::Reply,
            flags: 0,
            dynheader: header::response_header(h, None),
            body: body::text_body(intro_text(names)),
        }
    } else {
        error_reply(h, UNKNOWN_INTERFACE@)
    }
}

/// The answer to a call for an object that is not there.
pub fn make_object_not_found(msg: &MarshalledMessage) -> (reply: MarshalledMessage)
    ensures
        reply@ == error_reply(msg.dynheader@, UNKNOWN_OBJECT@),
{
    msg.dynheader.make_error_response(UNKNOWN_OBJECT.to_owned(), None)
}

/// The answer to a call for an object with the given children.
pub fn make_intro_msg(msg: &MarshalledMessage, children: &Vec<&str>) -> (reply: MarshalledMessage)
    ensures
        reply@ == intro_reply(msg.dynheader@, text::texts(children@)),
{
    let introspects = match &msg.dynheader.interface {
        Some(interface) => text::str_eq(interface.as_str(), INTROSPECTABLE),
        None => false,
    };
    if !introspects {
        return msg.dynheader.make_error_response(UNKNOWN_INTERFACE.to_owned(), None);
    }
    let ghost names = text::texts(children@);
    let mut res = msg.dynheader.make_response();
    let mut intro_str = INTRO_START.to_owned();
    let mut i: usize = 0;
    proof {
        assert(names.take(0) =~= seq![]);
        assert(intro_lines(seq![]) =~= seq![]);
    }
    while i < children.len()
        invariant
            i <= children@.len(),
            names == text::texts(children@),
            intro_str@ =~= INTRO_START@ + intro_lines(names.take(i as int)),
        decreases children@.len() - i,
    {
        intro_str.append(NODE_START);
        intro_str.append(children[i]);
        intro_str.append(NODE_END);
        proof {
            assert(names.take(i + 1).drop_last() =~= names.take(i as int));
            assert(names.take(i + 1).last() == children@[i as int]@);
        }
        i += 1;
    }
    intro_str.append(INTRO_END);
    proof {
        assert(names.take(i as int) =~= names);
    }
    let _ = res.body.push_param(intro_str);
    proof {
        assert(res.body@.sig =~= seq!['s']);
    }
    res
}

/// The answer to a call for an object that is not there, or for an interface that it does not
/// have, is an error without parameters to the sender of the call.
pub proof fn law_error_reply_is_addressed(h: HeaderView, name: Seq<char>)
    ensures
        error_reply(h, name).typ is Error,
        error_reply(h, name).flags == 0,
        error_reply(h, name).dynheader.destination == h.sender,
        error_reply(h, name).dynheader.response_serial == h.serial,
        error_reply(h, name).dynheader.error_name == Some(name),
        error_reply(h, name).dynheader.object is None,
        error_reply(h, name).dynheader.interface is None,
        error_reply(h, name).dynheader.member is None,
        error_reply(h, name).dynheader.sender is None,
        error_reply(h, name).body.buf.len() == 0,
        error_reply(h, name).body.sig.len() == 0,
        error_reply(h, name).body.fds.len() == 0,
        UNKNOWN_OBJECT@ == "UnknownObject"@,
        UNKNOWN_INTERFACE@ == "UnknownInterface"@,
{
}

/// A call of the interface for introspection is answered with the description of the object, as
/// text, to the sender of the call. A call of another interface, or of none, gets an error.
pub proof fn law_intro_reply_is_addressed(h: HeaderView, names: Seq<Seq<char>>)
    requires
        encode_utf8(intro_text(names)).len() <= u32::MAX,
    ensures
        intro_reply(h, names).dynheader.destination == h.sender,
        intro_reply(h, names).dynheader.response_serial == h.serial,
        intro_reply(h, names).flags == 0,
        h.interface == Some("org.freedesktop.DBus.Introspectable"@) ==> {
            let reply = intro_reply(h, names);
            &&& reply.typ is Reply
            &&& reply.dynheader.error_name is None
            &&& reply.body.sig == seq!['s']
            &&& reply.body.byteorder is LittleEndian
            &&& header::text_stands_at(reply.body.buf, 0, intro_text(names), reply.body.byteorder)
        },
        h.interface != Some("org.freedesktop.DBus.Introspectable"@) ==> {
            let reply = intro_reply(h, names);
            &&& reply.typ is Error
            &&& reply.dynheader.error_name == Some("UnknownInterface"@)
            &&& reply.body.buf.len() == 0
        },
{
    body::law_text_stands_in_body(intro_text(names));
}

/// The line of one child in a description.
pub open spec fn node_line(name: Seq<char>) -> Seq<char> {
    "\t<node name=\""@ + name + "\"/>\n"@
}

/// The lines of the children of an object, from the first one on.
pub open spec fn node_lines(names: Seq<Seq<char>>) -> Seq<char>
    decreases names.len(),
{
    if names.len() == 0 {
        seq![]
    } else {
        node_line(names[0]) + node_lines(names.skip(1))
    }
}

proof fn lemma_node_lines_push(names: Seq<Seq<char>>, name: Seq<char>)
    ensures
        node_lines(names.push(name)) == node_lines(names) + node_line(name),
    decreases names.len(),
{
    let all = names.push(name);
    if names.len() == 0 {
        assert(all.skip(1) =~= seq![]);
        assert(node_lines(seq![]) =~= seq![]);
        assert(node_lines(all) =~= node_lines(names) + node_line(name));
    } else {
        assert(all.skip(1) =~= names.skip(1).push(name));
        lemma_node_lines_push(names.skip(1), name);
        assert(node_lines(all) =~= node_lines(names) + node_line(name));
    }
}

/// A description of an object lists its children one by one, each in a line of its own, between
/// a start and an end that are the same for all objects.
pub proof fn law_description_lists_the_children(names: Seq<Seq<char>>)
    ensures
        intro_text(names) == INTRO_START@ + node_lines(names) + " </node>"@,
    decreases names.len(),
{
    lemma_intro_lines(names);
}

proof fn lemma_intro_lines(names: Seq<Seq<char>>)
    ensures
        intro_lines(names) == node_lines(names),
    decreases names.len(),
{
    if names.len() > 0 {
        lemma_intro_lines(names.drop_last());
        lemma_node_lines_push(names.drop_last(), names.last());
        assert(names.drop_last().push(names.last()) =~= names);
        assert(intro_lines(names) =~= node_lines(names));
    }
}

/// What surrounds the children in a description: the type of the document, and the interface for
/// introspection with its one method.
pub proof fn law_description_frame()
    ensures
        INTRO_START@ == "<!DOCTYPE node PUBLIC \"-//freedesktop//DTD D-BUS Object Introspection 1.0//EN\" \"http://www.freedesktop.org/standards/dbus/1.0/introspect.dtd\">
 <node>
\t<interface name=\"org.freedesktop.DBus.Introspectable\">
\t\t<method name=\"Introspect\">
\t\t\t<arg name=\"xml_data\" type=\"s\" direction=\"out\"/>
\t\t</method>
\t</interface>\n"@,
        INTRO_END@ == " </node>"@,
        INTROSPECTABLE@ == "org.freedesktop.DBus.Introspectable"@,
{
}

} // verus!
