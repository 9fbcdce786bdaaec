//! Messages: building them, and the dynamic part of their headers.
use vstd::prelude::*;

pub mod body;
pub mod hdr_var;
pub mod header;

pub use body::{MarshalledMessageBody, MessageBodyParser};
pub use hdr_var::SigStr;
pub use header::DynamicHeader;

use super::path;
use super::round_trip;
use super::wire_format;
use super::wire_format::{MarshalError, ValidationError, HEADER_LEN};
use super::{ByteOrder, MessageType, Serial};
use body::BodyView;
use hdr_var::FieldValue;
use header::HeaderView;

verus! {

/// A message that was received, or one that is built to be sent.
#[derive(Debug)]
pub struct MarshalledMessage {
    pub body: MarshalledMessageBody,
    pub dynheader: DynamicHeader,
    pub typ: MessageType,
    pub flags: u8,
}

/// What a message holds.
#[verifier::ext_equal]
pub struct MessageView {
    pub body: BodyView,
    pub dynheader: HeaderView,
    pub typ: MessageType,
    pub flags: u8,
}

impl View for MarshalledMessage {
    type V = MessageView;

    open spec fn view(&self) -> MessageView {
        MessageView {
            body: self.body@,
            dynheader: self.dynheader@,
            typ: self.typ,
            flags: self.flags,
        }
    }
}

/// A message without a kind, without header fields and without parameters.
pub open spec fn empty_message(byteorder: ByteOrder) -> MessageView {
    MessageView {
        body: body::empty_body(byteorder),
        dynheader: header::empty_header(),
        typ: MessageType::Invalid,
        flags: 0,
    }
}

/// The fields that are written into the header of a message.
pub open spec fn message_fields(msg: MessageView) -> Seq<(u8, FieldValue)> {
    header::header_fields(
        msg.dynheader,
        if msg.body.buf.len() > 0 {
            Some(msg.body.sig)
        } else {
            None
        },
        msg.body.fds.len() as u32,
    )
}

/// The bytes before the fields of a message, with a length of zero for the fields.
pub open spec fn message_start(msg: MessageView, serial: u32) -> Seq<u8> {
    header::header_start(
        msg.body.byteorder,
        msg.typ,
        msg.flags,
        msg.body.buf.len() as u32,
        serial,
    )
}

/// The header of a message.
pub open spec fn message_header(msg: MessageView, serial: u32) -> Seq<u8> {
    header::header_bytes(message_start(msg, serial), message_fields(msg), msg.body.byteorder)
}

/// Every header field of the message can be written.
pub open spec fn writable_header(msg: MessageView) -> bool {
    header::valid_prefix(message_fields(msg)) == message_fields(msg).len()
}

/// Why the header of the message cannot be written.
pub open spec fn header_error(msg: MessageView) -> MarshalError {
    MarshalError::Validation(
        header::field_error(
            message_fields(msg)[header::valid_prefix(message_fields(msg))],
        )->Some_0,
    )
}

/// A header is never empty.
pub proof fn lemma_header_not_empty(msg: MessageView, serial: u32)
    ensures
        message_header(msg, serial).len() >= 16,
{
    let order = msg.body.byteorder;
    let start = message_start(msg, serial);
    let fields = message_fields(msg);
    header::lemma_with_fields_length(start, fields, order);
    let all = header::with_fields(start, fields, order);
    assert(start.len() == 16);
    crate::utils::lemma_align_up(all.len() as int, 8);
}

impl Default for MarshalledMessage {
    fn default() -> (msg: Self)
        ensures
            msg@ == empty_message(ByteOrder::LittleEndian),
    {
        Self::new()
    }
}

impl MarshalledMessage {
    /// The bytes of the parameters.
    pub fn get_buf(&self) -> (buf: &[u8])
        ensures
            buf@ == self@.body.buf,
    {
        self.body.buf()
    }

    /// The signature of the parameters.
    pub fn get_sig(&self) -> (sig: &str)
        ensures
            sig@ == self@.body.sig,
    {
        self.body.sig()
    }

    /// A new message in little endian byte order.
    pub fn new() -> (msg: Self)
        ensures
            msg@ == empty_message(ByteOrder::LittleEndian),
    {
        MarshalledMessage {
            typ: MessageType::Invalid,
            dynheader: DynamicHeader::default(),
            flags: 0,
            body: MarshalledMessageBody::new(),
        }
    }

    /// A new message in the given byte order.
    pub fn with_byteorder(b: ByteOrder) -> (msg: Self)
        ensures
            msg@ == empty_message(b),
    {
        MarshalledMessage {
            typ: MessageType::Invalid,
            dynheader: DynamicHeader::default(),
            flags: 0,
            body: MarshalledMessageBody::with_byteorder(b),
        }
    }

    /// Makes room for `additional` more bytes of parameters.
    pub fn reserve(&mut self, additional: usize)
        requires
            old(self)@.body.buf.len() + additional <= isize::MAX,
        ensures
            final(self)@ == old(self)@,
    {
        self.body.reserve(additional);
    }

    /// Writes the header of the message into `hdr_buf`, in place of what it holds. Where a
    /// field is not what its kind has to be, it ends before that field.
    #[verifier::rlimit(40)]
    #[verifier::spinoff_prover]
    pub fn marshal_header(&self, serial: Serial, hdr_buf: &mut Vec<u8>) -> (result: Result<
        (),
        MarshalError,
    >)
        ensures
            if writable_header(self@) {
                &&& result is Ok
                &&& final(hdr_buf)@ == message_header(self@, serial@)
            } else {
                &&& result == Err::<(), MarshalError>(header_error(self@))
                &&& final(hdr_buf)@ == header::with_fields(
                    message_start(self@, serial@),
                    message_fields(self@).take(header::valid_prefix(message_fields(self@))),
                    self@.body.byteorder,
                )
            },
    {
        let order = self.body.byteorder();
        hdr_buf.clear();
        hdr_buf.push(
            match order {
                ByteOrder::LittleEndian => 0x6c,
                ByteOrder::BigEndian => 0x42,
            },
        );
        hdr_buf.push(
            match self.typ {
                MessageType::Invalid => 0,
                MessageType::Call => 1,
                MessageType::Reply => 2,
                MessageType::Error => 3,
                MessageType::Signal => 4,
            },
        );
        hdr_buf.push(self.flags);
        hdr_buf.push(1);
        proof {
            assert(hdr_buf@ =~= seq![
                header::order_byte(order),
                header::type_byte(self.typ),
                self.flags,
                1u8,
            ]);
        }
        wire_format::write_u32(
            #[verifier::truncate]
            (self.body.buf().len() as u32),
            order,
            hdr_buf,
        );
        wire_format::write_u32(serial.get(), order, hdr_buf);
        wire_format::write_u32(0, order, hdr_buf);
        let ghost start = message_start(self@, serial@);
        assert(hdr_buf@ =~= start);
        let body_sig = if self.body.buf().len() > 0 {
            Some(self.body.sig())
        } else {
            None
        };
        let fd_count: u32 = #[verifier::truncate]
        (self.body.fds().len() as u32);
        let fields = header::collect_out_fields(&self.dynheader, body_sig, fd_count);
        match header::write_fields(&fields, order, hdr_buf) {
            Ok(()) => {},
            Err(error) => {
                return Err(error);
            },
        }
        proof {
            let all = message_fields(self@);
            assert(all.take(all.len() as int) =~= all);
            header::lemma_with_fields_length(start, all, order);
        }
        let length: u32 = #[verifier::truncate]
        ((hdr_buf.len() - (HEADER_LEN + 4)) as u32);
        wire_format::insert_u32(order, length, hdr_buf, HEADER_LEN);
        wire_format::pad_to_align(8, hdr_buf);
        Ok(())
    }
}

/// The start of a new message, which becomes a call or a signal.
pub struct MessageBuilder {
    msg: MarshalledMessage,
}

/// A call that is being built.
pub struct CallBuilder {
    msg: MarshalledMessage,
}

/// A signal that is being built.
pub struct SignalBuilder {
    msg: MarshalledMessage,
}

impl View for MessageBuilder {
    type V = MessageView;

    closed spec fn view(&self) -> MessageView {
        self.msg@
    }
}

impl View for CallBuilder {
    type V = MessageView;

    closed spec fn view(&self) -> MessageView {
        self.msg@
    }
}

impl View for SignalBuilder {
    type V = MessageView;

    closed spec fn view(&self) -> MessageView {
        self.msg@
    }
}

/// A message with other header fields.
pub open spec fn with_header(msg: MessageView, dynheader: HeaderView) -> MessageView {
    MessageView { dynheader, ..msg }
}

impl Default for MessageBuilder {
    fn default() -> (builder: Self)
        ensures
            builder@ == empty_message(ByteOrder::LittleEndian),
    {
        Self::new()
    }
}

impl MessageBuilder {
    /// A new message in little endian byte order.
    pub fn new() -> (builder: MessageBuilder)
        ensures
            builder@ == empty_message(ByteOrder::LittleEndian),
    {
        MessageBuilder { msg: MarshalledMessage::new() }
    }

    /// A new message in the given byte order.
    pub fn with_byteorder(b: ByteOrder) -> (builder: MessageBuilder)
        ensures
            builder@ == empty_message(b),
    {
        MessageBuilder { msg: MarshalledMessage::with_byteorder(b) }
    }

    /// Makes the message a call of the given member.
    pub fn call(self, member: &str) -> (builder: CallBuilder)
        ensures
            builder@ == (MessageView {
                typ: MessageType::Call,
                dynheader: HeaderView { member: Some(member@), ..self@.dynheader },
                ..self@
            }),
    {
        let mut msg = self.msg;
        msg.typ = MessageType::Call;
        msg.dynheader.member = Some(member.to_owned());
        CallBuilder { msg }
    }

    /// Makes the message a signal.
    pub fn signal(self, interface: &str, member: &str, object: &str) -> (builder: SignalBuilder)
        ensures
            builder@ == (MessageView {
                typ: MessageType::Signal,
                dynheader: HeaderView {
                    interface: Some(interface@),
                    member: Some(member@),
                    object: Some(object@),
                    ..self@.dynheader
                },
                ..self@
            }),
    {
        let mut msg = self.msg;
        msg.typ = MessageType::Signal;
        msg.dynheader.member = Some(member.to_owned());
        msg.dynheader.interface = Some(interface.to_owned());
        msg.dynheader.object = Some(object.to_owned());
        SignalBuilder { msg }
    }
}

impl CallBuilder {
    /// Sets the object that is called.
    pub fn on(self, object_path: &str) -> (builder: Self)
        ensures
            builder@ == with_header(
                self@,
                (HeaderView { object: Some(object_path@), ..self@.dynheader }),
            ),
    {
        let mut msg = self.msg;
        msg.dynheader.object = Some(object_path.to_owned());
        CallBuilder { msg }
    }

    /// Sets the interface of the member.
    pub fn with_interface(self, interface: &str) -> (builder: Self)
        ensures
            builder@ == with_header(
                self@,
                (HeaderView { interface: Some(interface@), ..self@.dynheader }),
            ),
    {
        let mut msg = self.msg;
        msg.dynheader.interface = Some(interface.to_owned());
        CallBuilder { msg }
    }

    /// Sets the service that is called.
    pub fn at(self, destination: &str) -> (builder: Self)
        ensures
            builder@ == with_header(
                self@,
                (HeaderView { destination: Some(destination@), ..self@.dynheader }),
            ),
    {
        let mut msg = self.msg;
        msg.dynheader.destination = Some(destination.to_owned());
        CallBuilder { msg }
    }

    /// The call.
    pub fn build(self) -> (msg: MarshalledMessage)
        ensures
            msg@ == self@,
    {
        self.msg
    }
}

impl SignalBuilder {
    /// Sets who the signal is for.
    pub fn to(self, destination: &str) -> (builder: Self)
        ensures
            builder@ == with_header(
                self@,
                (HeaderView { destination: Some(destination@), ..self@.dynheader }),
            ),
    {
        let mut msg = self.msg;
        msg.dynheader.destination = Some(destination.to_owned());
        SignalBuilder { msg }
    }

    /// The signal.
    pub fn build(self) -> (msg: MarshalledMessage)
        ensures
            msg@ == self@,
    {
        self.msg
    }
}

// ---------------------------------------------------------------------------
// What a message looks like on the wire
// ---------------------------------------------------------------------------

/// Each header field that is set is what its kind has to be.
pub open spec fn valid_fields(h: HeaderView) -> bool {
    &&& h.object matches Some(s) ==> path::valid_path(s)
    &&& h.interface matches Some(s) ==> wire_format::interface_name(s)
    &&& h.member matches Some(s) ==> wire_format::member_name(s)
    &&& h.error_name matches Some(s) ==> wire_format::interface_name(s)
    &&& h.destination matches Some(s) ==> wire_format::bus_name(s)
    &&& h.sender matches Some(s) ==> wire_format::bus_name(s)
}

/// What is wrong with the first field that is invalid.
spec fn first_error(fields: Seq<(u8, FieldValue)>) -> Option<ValidationError>
    decreases fields.len(),
{
    if fields.len() == 0 {
        None
    } else {
        match first_error(fields.drop_last()) {
            Some(error) => Some(error),
            None => header::field_error(fields.last()),
        }
    }
}

proof fn lemma_first_error(fields: Seq<(u8, FieldValue)>)
    ensures
        0 <= header::valid_prefix(fields) <= fields.len(),
        header::valid_prefix(fields) == fields.len() <==> first_error(fields) is None,
        first_error(fields) matches Some(error) ==> header::field_error(
            fields[header::valid_prefix(fields)],
        ) == Some(error),
    decreases fields.len(),
{
    if fields.len() > 0 {
        lemma_first_error(fields.drop_last());
    }
}

proof fn lemma_first_error_concat(a: Seq<(u8, FieldValue)>, b: Seq<(u8, FieldValue)>)
    ensures
        first_error(a + b) == match first_error(a) {
            Some(error) => Some(error),
            None => first_error(b),
        },
    decreases b.len(),
{
    if b.len() == 0 {
        assert(a + b =~= a);
    } else {
        assert((a + b).drop_last() =~= a + b.drop_last());
        lemma_first_error_concat(a, b.drop_last());
    }
}

proof fn lemma_first_error_one(code: u8, value: Option<FieldValue>)
    ensures
        first_error(header::opt_field(code, value)) == match value {
            Some(value) => header::field_error((code, value)),
            None => None,
        },
{
    if let Some(v) = value {
        assert(seq![(code, v)].drop_last() =~= seq![]);
        assert(first_error(seq![]) is None);
    }
}

/// A text, if there is one, as the value of a field.
pub open spec fn text_value(s: Option<Seq<char>>) -> Option<FieldValue> {
    match s {
        Some(s) => Some(FieldValue::Text(s)),
        None => None,
    }
}

/// A number, if there is one, as the value of a field.
pub open spec fn number_value(n: Option<u32>) -> Option<FieldValue> {
    match n {
        Some(n) => Some(FieldValue::Number(n)),
        None => None,
    }
}

spec fn path_value(s: Option<Seq<char>>) -> Option<FieldValue> {
    match s {
        Some(s) => Some(FieldValue::Path(s)),
        None => None,
    }
}

spec fn sig_value(msg: MessageView) -> Option<FieldValue> {
    if msg.body.buf.len() > 0 {
        Some(FieldValue::Signature(msg.body.sig))
    } else {
        None
    }
}

spec fn fds_value(msg: MessageView) -> Option<FieldValue> {
    if msg.body.fds.len() > 0 {
        Some(FieldValue::Number(msg.body.fds.len() as u32))
    } else {
        None
    }
}

/// The fields of a message are at most nine lists of one field each, one behind the other.
proof fn lemma_field_list(msg: MessageView)
    requires
        msg.body.fds.len() <= u32::MAX,
    ensures
        message_fields(msg) == header::opt_field(1, path_value(msg.dynheader.object))
            + header::opt_field(2, text_value(msg.dynheader.interface)) + header::opt_field(
            3,
            text_value(msg.dynheader.member),
        ) + header::opt_field(4, text_value(msg.dynheader.error_name)) + header::opt_field(
            5,
            number_value(msg.dynheader.response_serial),
        ) + header::opt_field(6, text_value(msg.dynheader.destination)) + header::opt_field(
            7,
            text_value(msg.dynheader.sender),
        ) + header::opt_field(8, sig_value(msg)) + header::opt_field(9, fds_value(msg)),
{
}

proof fn lemma_written_field(msg: MessageView, code: u8)
    requires
        msg.body.fds.len() <= u32::MAX,
    ensures
        header::last_field(message_fields(msg), code) == if code == 1 {
            path_value(msg.dynheader.object)
        } else if code == 2 {
            text_value(msg.dynheader.interface)
        } else if code == 3 {
            text_value(msg.dynheader.member)
        } else if code == 4 {
            text_value(msg.dynheader.error_name)
        } else if code == 5 {
            number_value(msg.dynheader.response_serial)
        } else if code == 6 {
            text_value(msg.dynheader.destination)
        } else if code == 7 {
            text_value(msg.dynheader.sender)
        } else if code == 8 {
            sig_value(msg)
        } else if code == 9 {
            fds_value(msg)
        } else {
            None
        },
{
    let h = msg.dynheader;
    lemma_field_list(msg);
    let f1 = header::opt_field(1, path_value(h.object));
    let f2 = header::opt_field(2, text_value(h.interface));
    let f3 = header::opt_field(3, text_value(h.member));
    let f4 = header::opt_field(4, text_value(h.error_name));
    let f5 = header::opt_field(5, number_value(h.response_serial));
    let f6 = header::opt_field(6, text_value(h.destination));
    let f7 = header::opt_field(7, text_value(h.sender));
    let f8 = header::opt_field(8, sig_value(msg));
    let f9 = header::opt_field(9, fds_value(msg));
    round_trip::lemma_last_field_opt(1, path_value(h.object));
    round_trip::lemma_last_field_opt(2, text_value(h.interface));
    round_trip::lemma_last_field_opt(3, text_value(h.member));
    round_trip::lemma_last_field_opt(4, text_value(h.error_name));
    round_trip::lemma_last_field_opt(5, number_value(h.response_serial));
    round_trip::lemma_last_field_opt(6, text_value(h.destination));
    round_trip::lemma_last_field_opt(7, text_value(h.sender));
    round_trip::lemma_last_field_opt(8, sig_value(msg));
    round_trip::lemma_last_field_opt(9, fds_value(msg));
    round_trip::lemma_last_field_concat(f1, f2);
    round_trip::lemma_last_field_concat(f1 + f2, f3);
    round_trip::lemma_last_field_concat(f1 + f2 + f3, f4);
    round_trip::lemma_last_field_concat(f1 + f2 + f3 + f4, f5);
    round_trip::lemma_last_field_concat(f1 + f2 + f3 + f4 + f5, f6);
    round_trip::lemma_last_field_concat(f1 + f2 + f3 + f4 + f5 + f6, f7);
    round_trip::lemma_last_field_concat(f1 + f2 + f3 + f4 + f5 + f6 + f7, f8);
    round_trip::lemma_last_field_concat(f1 + f2 + f3 + f4 + f5 + f6 + f7 + f8, f9);
}

/// Each header field is written under the code that it has in the protocol: the object under 1,
/// the interface under 2, the member under 3, the name of an error under 4, the serial of the
/// call that is answered under 5, the destination under 6 and the sender under 7. The signature
/// of the parameters follows under 8 and the number of file descriptors under 9. Nothing else is
/// written.
pub proof fn law_fields_have_their_codes(msg: MessageView)
    requires
        msg.body.fds.len() <= u32::MAX,
    ensures
        ({
            let fields = message_fields(msg);
            let h = msg.dynheader;
            &&& header::last_field(fields, 1) == match h.object {
                Some(s) => Some(FieldValue::Path(s)),
                None => None,
            }
            &&& header::last_field(fields, 2) == text_value(h.interface)
            &&& header::last_field(fields, 3) == text_value(h.member)
            &&& header::last_field(fields, 4) == text_value(h.error_name)
            &&& header::last_field(fields, 5) == number_value(h.response_serial)
            &&& header::last_field(fields, 6) == text_value(h.destination)
            &&& header::last_field(fields, 7) == text_value(h.sender)
            &&& header::last_field(fields, 8) == if msg.body.buf.len() > 0 {
                Some(FieldValue::Signature(msg.body.sig))
            } else {
                None
            }
            &&& header::last_field(fields, 9) == if msg.body.fds.len() > 0 {
                Some(FieldValue::Number(msg.body.fds.len() as u32))
            } else {
                None
            }
            &&& forall|code: u8|
                !(1 <= code <= 9) ==> #[trigger] header::last_field(fields, code) is None
        }),
{
    lemma_written_field(msg, 1);
    lemma_written_field(msg, 2);
    lemma_written_field(msg, 3);
    lemma_written_field(msg, 4);
    lemma_written_field(msg, 5);
    lemma_written_field(msg, 6);
    lemma_written_field(msg, 7);
    lemma_written_field(msg, 8);
    lemma_written_field(msg, 9);
    assert forall|code: u8| !(1 <= code <= 9) implies #[trigger] header::last_field(
        message_fields(msg),
        code,
    ) is None by {
        lemma_written_field(msg, code);
    }
}

/// What is read under a code of the protocol becomes the header field that the code stands for.
pub proof fn law_codes_have_their_fields(fields: Seq<(u8, FieldValue)>)
    ensures
        ({
            let h = header::header_of(fields);
            &&& header::last_field(fields, 1) matches Some(FieldValue::Path(s)) ==> h.object == Some(
                s,
            )
            &&& header::last_field(fields, 2) matches Some(FieldValue::Text(s)) ==> h.interface
                == Some(s)
            &&& header::last_field(fields, 3) matches Some(FieldValue::Text(s)) ==> h.member
                == Some(s)
            &&& header::last_field(fields, 4) matches Some(FieldValue::Text(s)) ==> h.error_name
                == Some(s)
            &&& header::last_field(fields, 5) matches Some(FieldValue::Number(n))
                ==> h.response_serial == Some(n)
            &&& header::last_field(fields, 6) matches Some(FieldValue::Text(s)) ==> h.destination
                == Some(s)
            &&& header::last_field(fields, 7) matches Some(FieldValue::Text(s)) ==> h.sender
                == Some(s)
            &&& header::last_field(fields, 8) matches Some(FieldValue::Signature(s))
                ==> h.signature == Some(s)
            &&& header::last_field(fields, 9) matches Some(FieldValue::Number(n)) ==> h.num_fds
                == Some(n)
            &&& header::last_field(fields, 1) is None ==> h.object is None
            &&& header::last_field(fields, 2) is None ==> h.interface is None
            &&& header::last_field(fields, 3) is None ==> h.member is None
            &&& header::last_field(fields, 4) is None ==> h.error_name is None
            &&& header::last_field(fields, 5) is None ==> h.response_serial is None
            &&& header::last_field(fields, 6) is None ==> h.destination is None
            &&& header::last_field(fields, 7) is None ==> h.sender is None
            &&& header::last_field(fields, 8) is None ==> h.signature is None
            &&& header::last_field(fields, 9) is None ==> h.num_fds is None
        }),
{
}

/// The last field with a code is the one that counts.
pub proof fn law_last_field_counts(fields: Seq<(u8, FieldValue)>, i: int)
    requires
        0 <= i < fields.len(),
        forall|j: int| i < j < fields.len() ==> (#[trigger] fields[j]).0 != fields[i].0,
    ensures
        header::last_field(fields, fields[i].0) == Some(fields[i].1),
    decreases fields.len(),
{
    if i < fields.len() - 1 {
        let front = fields.drop_last();
        assert(fields[fields.len() - 1].0 != fields[i].0);
        assert forall|j: int| i < j < front.len() implies (#[trigger] front[j]).0 != front[i].0 by {
            assert(front[j] == fields[j]);
        }
        law_last_field_counts(front, i);
    }
}

proof fn lemma_header_first_error(msg: MessageView)
    requires
        msg.body.fds.len() <= u32::MAX,
    ensures
        ({
            let h = msg.dynheader;
            let object = h.object matches Some(s) && !path::valid_path(s);
            let interface = h.interface matches Some(s) && !wire_format::interface_name(s);
            let member = h.member matches Some(s) && !wire_format::member_name(s);
            let error_name = h.error_name matches Some(s) && !wire_format::interface_name(s);
            let destination = h.destination matches Some(s) && !wire_format::bus_name(s);
            let sender = h.sender matches Some(s) && !wire_format::bus_name(s);
            first_error(message_fields(msg)) == if object {
                Some(ValidationError::InvalidObjectPath)
            } else if interface {
                Some(ValidationError::InvalidInterface)
            } else if member {
                Some(ValidationError::InvalidMembername)
            } else if error_name {
                Some(ValidationError::InvalidErrorname)
            } else if destination || sender {
                Some(ValidationError::InvalidBusname)
            } else {
                None
            }
        }),
{
    let h = msg.dynheader;
    lemma_field_list(msg);
    let f1 = header::opt_field(1, path_value(h.object));
    let f2 = header::opt_field(2, text_value(h.interface));
    let f3 = header::opt_field(3, text_value(h.member));
    let f4 = header::opt_field(4, text_value(h.error_name));
    let f5 = header::opt_field(5, number_value(h.response_serial));
    let f6 = header::opt_field(6, text_value(h.destination));
    let f7 = header::opt_field(7, text_value(h.sender));
    let f8 = header::opt_field(8, sig_value(msg));
    let f9 = header::opt_field(9, fds_value(msg));
    lemma_first_error_one(1, path_value(h.object));
    lemma_first_error_one(2, text_value(h.interface));
    lemma_first_error_one(3, text_value(h.member));
    lemma_first_error_one(4, text_value(h.error_name));
    lemma_first_error_one(5, number_value(h.response_serial));
    lemma_first_error_one(6, text_value(h.destination));
    lemma_first_error_one(7, text_value(h.sender));
    lemma_first_error_one(8, sig_value(msg));
    lemma_first_error_one(9, fds_value(msg));
    lemma_first_error_concat(f1, f2);
    lemma_first_error_concat(f1 + f2, f3);
    lemma_first_error_concat(f1 + f2 + f3, f4);
    lemma_first_error_concat(f1 + f2 + f3 + f4, f5);
    lemma_first_error_concat(f1 + f2 + f3 + f4 + f5, f6);
    lemma_first_error_concat(f1 + f2 + f3 + f4 + f5 + f6, f7);
    lemma_first_error_concat(f1 + f2 + f3 + f4 + f5 + f6 + f7, f8);
    lemma_first_error_concat(f1 + f2 + f3 + f4 + f5 + f6 + f7 + f8, f9);
}

/// The header of a message is written if each of its fields is what its kind has to be, and only
/// then.
pub proof fn law_valid_fields_are_written(msg: MessageView)
    requires
        msg.body.fds.len() <= u32::MAX,
    ensures
        writable_header(msg) <==> valid_fields(msg.dynheader),
{
    lemma_first_error(message_fields(msg));
    lemma_header_first_error(msg);
}

/// Where the header cannot be written, the error is that of the first field, in the order of
/// their codes, that is not what it has to be.
pub proof fn law_first_invalid_field_is_reported(msg: MessageView)
    requires
        msg.body.fds.len() <= u32::MAX,
        !valid_fields(msg.dynheader),
    ensures
        ({
            let h = msg.dynheader;
            let object = h.object matches Some(s) && !path::valid_path(s);
            let interface = h.interface matches Some(s) && !wire_format::interface_name(s);
            let member = h.member matches Some(s) && !wire_format::member_name(s);
            let error_name = h.error_name matches Some(s) && !wire_format::interface_name(s);
            header_error(msg) == MarshalError::Validation(
                if object {
                    ValidationError::InvalidObjectPath
                } else if interface {
                    ValidationError::InvalidInterface
                } else if member {
                    ValidationError::InvalidMembername
                } else if error_name {
                    ValidationError::InvalidErrorname
                } else {
                    ValidationError::InvalidBusname
                },
            )
        }),
{
    lemma_first_error(message_fields(msg));
    lemma_header_first_error(msg);
}

/// A header starts with the letter of its byte order, the number of its kind, its flags, the
/// version of the protocol, the length of the body and the serial, and is a multiple of eight
/// bytes long.
pub proof fn law_header_starts_with_fixed_part(msg: MessageView, serial: u32)
    requires
        msg.body.buf.len() <= u32::MAX,
    ensures
        ({
            let bytes = message_header(msg, serial);
            let order = msg.body.byteorder;
            &&& bytes.len() >= 16
            &&& bytes.len() % 8 == 0
            &&& order is LittleEndian ==> bytes[0] as int == 'l' as int
            &&& order is BigEndian ==> bytes[0] as int == 'B' as int
            &&& msg.typ is Call ==> bytes[1] == 1
            &&& msg.typ is Reply ==> bytes[1] == 2
            &&& msg.typ is Error ==> bytes[1] == 3
            &&& msg.typ is Signal ==> bytes[1] == 4
            &&& bytes[2] == msg.flags
            &&& bytes[3] == 1
            &&& crate::utils::u32_value(bytes.subrange(4, 8), order) == msg.body.buf.len()
            &&& crate::utils::u32_value(bytes.subrange(8, 12), order) == serial
        }),
{
    let order = msg.body.byteorder;
    let start = message_start(msg, serial);
    let fields = message_fields(msg);
    let bytes = message_header(msg, serial);
    header::lemma_with_fields_length(start, fields, order);
    let all = header::with_fields(start, fields, order);
    assert(start.len() == 16);
    let filled = all.take(12) + crate::utils::u32_bytes((all.len() - 16) as u32, order) + all.skip(
        16,
    );
    crate::utils::lemma_align_up(filled.len() as int, 8);
    assert forall|i: int| 0 <= i < 12 implies bytes[i] == #[trigger] start[i] by {
        assert(all.take(16)[i] == start[i]);
    }
    crate::utils::lemma_u32_round_trip(msg.body.buf.len() as u32, order);
    crate::utils::lemma_u32_round_trip(serial, order);
    assert(bytes.subrange(4, 8) =~= start.subrange(4, 8));
    assert(bytes.subrange(8, 12) =~= start.subrange(8, 12));
    assert(start.subrange(4, 8) =~= crate::utils::u32_bytes(msg.body.buf.len() as u32, order));
    assert(start.subrange(8, 12) =~= crate::utils::u32_bytes(serial, order));
}

/// A new message has no kind, no flags, no header field and no parameters.
pub proof fn law_new_message_is_empty(byteorder: ByteOrder)
    ensures
        empty_message(byteorder).typ is Invalid,
        empty_message(byteorder).flags == 0,
        empty_message(byteorder).body.buf.len() == 0,
        empty_message(byteorder).body.sig.len() == 0,
        empty_message(byteorder).body.fds.len() == 0,
        empty_message(byteorder).body.byteorder == byteorder,
        empty_message(byteorder).dynheader.object is None,
        empty_message(byteorder).dynheader.interface is None,
        empty_message(byteorder).dynheader.member is None,
        empty_message(byteorder).dynheader.error_name is None,
        empty_message(byteorder).dynheader.response_serial is None,
        empty_message(byteorder).dynheader.destination is None,
        empty_message(byteorder).dynheader.sender is None,
        empty_message(byteorder).dynheader.signature is None,
        empty_message(byteorder).dynheader.num_fds is None,
        empty_message(byteorder).dynheader.serial is None,
{
}

} // verus!
