//! The dynamic part of a message header: its fields, how they are written and how they are
//! read back.
use vstd::prelude::*;
use vstd::utf8::*;

use super::body::MarshalledMessageBody;
use super::hdr_var;
use super::hdr_var::{FieldValue, HdrVar, SigStr};
use super::MarshalledMessage;
use crate::rustbus_core::marshal;
use crate::rustbus_core::marshal::{Signature, Unmarshal, UnmarshalContext};
use crate::rustbus_core::path;
use crate::rustbus_core::path::ObjectPath;
use crate::rustbus_core::wire_format;
use crate::rustbus_core::wire_format::{MarshalError, UnmarshalError, ValidationError};
use crate::rustbus_core::{ByteOrder, MessageType, Serial};
use crate::utils;

verus! {

/// The dynamic part of a message header.
#[derive(Debug)]
pub struct DynamicHeader {
    pub interface: Option<String>,
    pub member: Option<String>,
    pub object: Option<String>,
    pub destination: Option<String>,
    pub serial: Option<Serial>,
    pub sender: Option<String>,
    pub signature: Option<String>,
    pub error_name: Option<String>,
    pub response_serial: Option<Serial>,
    pub num_fds: Option<u32>,
}

/// What a dynamic header holds.
#[verifier::ext_equal]
pub struct HeaderView {
    pub interface: Option<Seq<char>>,
    pub member: Option<Seq<char>>,
    pub object: Option<Seq<char>>,
    pub destination: Option<Seq<char>>,
    pub serial: Option<u32>,
    pub sender: Option<Seq<char>>,
    pub signature: Option<Seq<char>>,
    pub error_name: Option<Seq<char>>,
    pub response_serial: Option<u32>,
    pub num_fds: Option<u32>,
}

/// The text of a field, if it is there.
pub open spec fn opt_text(s: Option<String>) -> Option<Seq<char>> {
    match s {
        Some(s) => Some(s@),
        None => None,
    }
}

/// The number of a serial field, if it is there.
pub open spec fn opt_serial(serial: Option<Serial>) -> Option<u32> {
    match serial {
        Some(serial) => Some(serial@),
        None => None,
    }
}

impl View for DynamicHeader {
    type V = HeaderView;

    open spec fn view(&self) -> HeaderView {
        HeaderView {
            interface: opt_text(self.interface),
            member: opt_text(self.member),
            object: opt_text(self.object),
            destination: opt_text(self.destination),
            serial: opt_serial(self.serial),
            sender: opt_text(self.sender),
            signature: opt_text(self.signature),
            error_name: opt_text(self.error_name),
            response_serial: opt_serial(self.response_serial),
            num_fds: self.num_fds,
        }
    }
}

/// A header without fields.
pub open spec fn empty_header() -> HeaderView {
    HeaderView {
        interface: None,
        member: None,
        object: None,
        destination: None,
        serial: None,
        sender: None,
        signature: None,
        error_name: None,
        response_serial: None,
        num_fds: None,
    }
}

/// Every field of the header is what its kind has to be.
pub open spec fn valid_header(h: HeaderView) -> bool {
    &&& h.interface matches Some(s) ==> wire_format::interface_name(s)
    &&& h.object matches Some(s) ==> path::valid_path(s)
    &&& h.member matches Some(s) ==> wire_format::member_name(s)
    &&& h.error_name matches Some(s) ==> wire_format::interface_name(s)
    &&& h.destination matches Some(s) ==> wire_format::bus_name(s)
    &&& h.sender matches Some(s) ==> wire_format::bus_name(s)
    &&& h.signature matches Some(s) ==> wire_format::parsed_signature(s) is Ok
}

// ---------------------------------------------------------------------------
// Writing
// ---------------------------------------------------------------------------

/// A field, if it is there.
pub open spec fn opt_field(code: u8, value: Option<FieldValue>) -> Seq<(u8, FieldValue)> {
    match value {
        Some(value) => seq![(code, value)],
        None => seq![],
    }
}

pub open spec fn opt_text_field(code: u8, s: Option<Seq<char>>) -> Seq<(u8, FieldValue)> {
    match s {
        Some(s) => seq![(code, FieldValue::Text(s))],
        None => seq![],
    }
}

/// The fields of a message, in the order in which they are written. The signature and the
/// number of file descriptors are those of the body: they are left out where the body is empty
/// and where there are no descriptors.
pub open spec fn header_fields(h: HeaderView, body_sig: Option<Seq<char>>, fd_count: u32) -> Seq<
    (u8, FieldValue),
> {
    opt_field(
        1,
        match h.object {
            Some(s) => Some(FieldValue::Path(s)),
            None => None,
        },
    ) + opt_text_field(2, h.interface) + opt_text_field(3, h.member) + opt_text_field(
        4,
        h.error_name,
    ) + opt_field(
        5,
        match h.response_serial {
            Some(n) => Some(FieldValue::Number(n)),
            None => None,
        },
    ) + opt_text_field(6, h.destination) + opt_text_field(7, h.sender) + opt_field(
        8,
        match body_sig {
            Some(s) => Some(FieldValue::Signature(s)),
            None => None,
        },
    ) + opt_field(
        9,
        if fd_count != 0 {
            Some(FieldValue::Number(fd_count))
        } else {
            None
        },
    )
}

/// What is wrong with a field that is to be written, if anything.
pub open spec fn field_error(field: (u8, FieldValue)) -> Option<ValidationError> {
    match field {
        (code, FieldValue::Path(s)) => if !path::valid_path(s) {
            Some(ValidationError::InvalidObjectPath)
        } else {
            None
        },
        (code, FieldValue::Text(s)) => if code == 2 && !wire_format::interface_name(s) {
            Some(ValidationError::InvalidInterface)
        } else if code == 3 && !wire_format::member_name(s) {
            Some(ValidationError::InvalidMembername)
        } else if code == 4 && !wire_format::interface_name(s) {
            Some(ValidationError::InvalidErrorname)
        } else if (code == 6 || code == 7) && !wire_format::bus_name(s) {
            Some(ValidationError::InvalidBusname)
        } else {
            None
        },
        _ => None,
    }
}

/// How many fields there are before the first one that is invalid.
pub open spec fn valid_prefix(fields: Seq<(u8, FieldValue)>) -> int
    decreases fields.len(),
{
    if fields.len() == 0 {
        0
    } else {
        let before = valid_prefix(fields.drop_last());
        if before == fields.len() - 1 && field_error(fields.last()) is None {
            fields.len() as int
        } else {
            before
        }
    }
}

/// `buf` with a field written behind it.
pub open spec fn with_field(buf: Seq<u8>, field: (u8, FieldValue), order: ByteOrder) -> Seq<u8> {
    hdr_var::with_value(wire_format::padded(buf, 8).push(field.0), field.1, order)
}

/// `buf` with fields written behind it.
pub open spec fn with_fields(
    buf: Seq<u8>,
    fields: Seq<(u8, FieldValue)>,
    order: ByteOrder,
) -> Seq<u8>
    decreases fields.len(),
{
    if fields.len() == 0 {
        buf
    } else {
        with_field(with_fields(buf, fields.drop_last(), order), fields.last(), order)
    }
}

pub open spec fn order_byte(order: ByteOrder) -> u8 {
    match order {
        ByteOrder::LittleEndian => 0x6c,
        ByteOrder::BigEndian => 0x42,
    }
}

pub open spec fn type_byte(typ: MessageType) -> u8 {
    match typ {
        MessageType::Invalid => 0,
        MessageType::Call => 1,
        MessageType::Reply => 2,
        MessageType::Error => 3,
        MessageType::Signal => 4,
    }
}

/// The part of the header that every message has, and a length of zero for the fields.
pub open spec fn header_start(
    order: ByteOrder,
    typ: MessageType,
    flags: u8,
    body_len: u32,
    serial: u32,
) -> Seq<u8> {
    seq![order_byte(order), type_byte(typ), flags, 1u8] + utils::u32_bytes(body_len, order)
        + utils::u32_bytes(serial, order) + utils::u32_bytes(0, order)
}

/// The whole header: the start, with the length of the fields filled in, the fields and the
/// padding behind them.
pub open spec fn header_bytes(
    start: Seq<u8>,
    fields: Seq<(u8, FieldValue)>,
    order: ByteOrder,
) -> Seq<u8> {
    let all = with_fields(start, fields, order);
    wire_format::padded(
        all.take(12) + utils::u32_bytes((all.len() - 16) as u32, order) + all.skip(16),
        8,
    )
}

// ---------------------------------------------------------------------------
// Reading
// ---------------------------------------------------------------------------

/// The field at `offset`: where it ends, its code and its value.
pub open spec fn field_at(buf: Seq<u8>, offset: int, order: ByteOrder) -> Result<
    (int, u8, FieldValue),
    UnmarshalError,
> {
    match wire_format::aligned_at(buf, offset, 8) {
        Err(error) => Err(error),
        Ok(start) => if start >= buf.len() {
            Err(UnmarshalError::NotEnoughBytes)
        } else {
            match hdr_var::value_at(buf, start + 1, order) {
                Err(error) => Err(error),
                Ok((end, value)) => if buf[start] > 9 {
                    Err(UnmarshalError::InvalidHeaderField)
                } else {
                    Ok((end, buf[start], value))
                },
            }
        },
    }
}

/// A field takes at least one byte and ends inside the buffer.
proof fn lemma_field_advances(buf: Seq<u8>, offset: int, order: ByteOrder)
    requires
        0 <= offset <= buf.len(),
    ensures
        field_at(buf, offset, order) matches Ok((end, _, _)) ==> offset < end,
{
    utils::lemma_align_up(offset, 8);
    if let Ok(start) = wire_format::aligned_at(buf, offset, 8) {
        if let Ok((sig_end, sig)) = wire_format::signature_at(buf, start + 1) {
            utils::lemma_align_up(sig_end, 4);
        }
    }
}

/// The fields from `offset` up to `end`.
pub open spec fn fields_at(buf: Seq<u8>, offset: int, end: int, order: ByteOrder) -> Result<
    Seq<(u8, FieldValue)>,
    UnmarshalError,
>
    decreases
            if offset < end {
                end - offset
            } else {
                0
            },
{
    if offset >= end {
        if offset == end {
            Ok(seq![])
        } else {
            Err(UnmarshalError::NotEnoughBytesForCollection)
        }
    } else {
        match field_at(buf, offset, order) {
            Err(error) => Err(error),
            Ok((next, code, value)) => if next <= offset {
                Err(UnmarshalError::NotEnoughBytes)
            } else {
                match fields_at(buf, next, end, order) {
                    Err(error) => Err(error),
                    Ok(rest) => Ok(seq![(code, value)] + rest),
                }
            },
        }
    }
}

/// The value of the last field with the given code.
pub open spec fn last_field(fields: Seq<(u8, FieldValue)>, code: u8) -> Option<FieldValue>
    decreases fields.len(),
{
    if fields.len() == 0 {
        None
    } else if fields.last().0 == code {
        Some(fields.last().1)
    } else {
        last_field(fields.drop_last(), code)
    }
}

/// The value is of the kind that the field with the given code holds.
pub open spec fn right_kind(code: u8, value: Option<FieldValue>) -> bool {
    match value {
        None => true,
        Some(value) => match value {
            FieldValue::Path(_) => code == 1,
            FieldValue::Text(_) => code == 2 || code == 3 || code == 4 || code == 6 || code == 7,
            FieldValue::Number(n) => (code == 5 && n != 0) || code == 9,
            FieldValue::Signature(_) => code == 8,
            FieldValue::Other => false,
        },
    }
}

pub open spec fn value_text(value: Option<FieldValue>) -> Option<Seq<char>> {
    match value {
        Some(FieldValue::Path(s)) => Some(s),
        Some(FieldValue::Text(s)) => Some(s),
        Some(FieldValue::Signature(s)) => Some(s),
        _ => None,
    }
}

pub open spec fn value_number(value: Option<FieldValue>) -> Option<u32> {
    match value {
        Some(FieldValue::Number(n)) => Some(n),
        _ => None,
    }
}

/// Every known field is of the kind that it has to be.
pub open spec fn right_kinds(fields: Seq<(u8, FieldValue)>) -> bool {
    forall|code: u8| 1 <= code <= 9 ==> right_kind(code, #[trigger] last_field(fields, code))
}

/// The header that the fields make. Where a field occurs twice, the last one counts.
pub open spec fn header_of(fields: Seq<(u8, FieldValue)>) -> HeaderView {
    HeaderView {
        object: value_text(last_field(fields, 1)),
        interface: value_text(last_field(fields, 2)),
        member: value_text(last_field(fields, 3)),
        error_name: value_text(last_field(fields, 4)),
        response_serial: value_number(last_field(fields, 5)),
        destination: value_text(last_field(fields, 6)),
        sender: value_text(last_field(fields, 7)),
        signature: value_text(last_field(fields, 8)),
        num_fds: value_number(last_field(fields, 9)),
        serial: None,
    }
}

/// The dynamic header at `offset`, with its length before it, and where the padding behind it
/// ends.
#[verifier::opaque]
pub open spec fn dynamic_header_at(buf: Seq<u8>, offset: int, order: ByteOrder) -> Result<
    (int, HeaderView),
    UnmarshalError,
> {
    match marshal::aligned_u32_at(buf, offset, order) {
        Err(error) => Err(error),
        Ok((start, length)) => if utils::align_up(start + length, 8) > buf.len() {
            Err(UnmarshalError::NotEnoughBytes)
        } else {
            match fields_at(buf, start, start + length, order) {
                Err(error) => Err(error),
                Ok(fields) => if !right_kinds(fields) || !valid_header(header_of(fields)) {
                    Err(UnmarshalError::InvalidHeaderField)
                } else {
                    match wire_format::aligned_at(buf, start + length, 8) {
                        Ok(end) => Ok((end, header_of(fields))),
                        Err(error) => Err(error),
                    }
                },
            }
        },
    }
}

/// A copy of optional text.
fn copy_text(s: &Option<String>) -> (copy: Option<String>)
    ensures
        opt_text(copy) == opt_text(*s),
{
    match s {
        Some(s) => Some(s.clone()),
        None => None,
    }
}

impl Default for DynamicHeader {
    fn default() -> (header: Self)
        ensures
            header@ == empty_header(),
    {
        DynamicHeader {
            interface: None,
            member: None,
            object: None,
            destination: None,
            serial: None,
            sender: None,
            signature: None,
            error_name: None,
            response_serial: None,
            num_fds: None,
        }
    }
}

impl Clone for DynamicHeader {
    fn clone(&self) -> (header: Self)
        ensures
            header@ == self@,
    {
        DynamicHeader {
            interface: copy_text(&self.interface),
            member: copy_text(&self.member),
            object: copy_text(&self.object),
            destination: copy_text(&self.destination),
            serial: self.serial,
            sender: copy_text(&self.sender),
            signature: copy_text(&self.signature),
            error_name: copy_text(&self.error_name),
            response_serial: self.response_serial,
            num_fds: self.num_fds,
        }
    }
}

/// The header of a message that answers one with the header `h`.
pub open spec fn response_header(h: HeaderView, error_name: Option<Seq<char>>) -> HeaderView {
    HeaderView {
        destination: h.sender,
        response_serial: h.serial,
        error_name,
        ..empty_header()
    }
}

impl DynamicHeader {
    /// An error that answers the message with this header. The text, if there is one, is its
    /// only parameter.
    pub fn make_error_response(&self, error_name: String, error_msg: Option<String>) -> (msg:
        MarshalledMessage)
        ensures
            msg.typ is Error,
            msg.flags == 0,
            msg.dynheader@ == response_header(self@, Some(error_name@)),
            match error_msg {
                Some(s) => super::body::pushed(
                    super::body::empty_body(ByteOrder::LittleEndian),
                    s,
                    msg.body@,
                    Ok(()),
                ),
                None => msg.body@ == super::body::empty_body(ByteOrder::LittleEndian),
            },
    {
        let mut msg = MarshalledMessage {
            typ: MessageType::Error,
            dynheader: DynamicHeader {
                interface: None,
                member: None,
                object: None,
                destination: copy_text(&self.sender),
                serial: None,
                num_fds: None,
                sender: None,
                signature: None,
                response_serial: self.serial,
                error_name: Some(error_name),
            },
            flags: 0,
            body: MarshalledMessageBody::new(),
        };
        if let Some(s) = error_msg {
            let _ = msg.body.push_param(s);
        }
        msg
    }

    /// A reply to the message with this header.
    pub fn make_response(&self) -> (msg: MarshalledMessage)
        ensures
            msg.typ is Reply,
            msg.flags == 0,
            msg.dynheader@ == response_header(self@, None),
            msg.body@ == super::body::empty_body(ByteOrder::LittleEndian),
    {
        MarshalledMessage {
            typ: MessageType::Reply,
            dynheader: DynamicHeader {
                interface: None,
                member: None,
                object: None,
                destination: copy_text(&self.sender),
                serial: None,
                num_fds: None,
                sender: None,
                signature: None,
                response_serial: self.serial,
                error_name: None,
            },
            flags: 0,
            body: MarshalledMessageBody::new(),
        }
    }

    /// Whether every field of the header is what its kind has to be.
    pub fn validate(&self) -> (valid: bool)
        ensures
            valid == valid_header(self@),
    {
        if let Some(interface) = &self.interface {
            if !wire_format::validate_interface(interface.as_str()) {
                return false;
            }
        }
        if let Some(object) = &self.object {
            if ObjectPath::new(object.as_str()).is_err() {
                return false;
            }
        }
        if let Some(member) = &self.member {
            if !wire_format::validate_membername(member.as_str()) {
                return false;
            }
        }
        if let Some(error_name) = &self.error_name {
            if !wire_format::validate_errorname(error_name.as_str()) {
                return false;
            }
        }
        if let Some(destination) = &self.destination {
            if !wire_format::validate_busname(destination.as_str()) {
                return false;
            }
        }
        if let Some(sender) = &self.sender {
            if !wire_format::validate_busname(sender.as_str()) {
                return false;
            }
        }
        if let Some(signature) = &self.signature {
            if wire_format::parse_signature(signature.as_str()).is_err() {
                return false;
            }
        }
        true
    }
}

/// The value, if it is there.
spec fn opt_value<'buf>(value: Option<HdrVar<'buf>>) -> Option<FieldValue> {
    match value {
        Some(value) => Some(value@),
        None => None,
    }
}

/// The text of an optional field. `Err` where the field holds something else.
fn text_field<'buf>(value: Option<HdrVar<'buf>>) -> (s: Result<Option<String>, UnmarshalError>)
    ensures
        match s {
            Ok(s) => {
                &&& opt_text(s) == value_text(opt_value(value))
                &&& opt_value(value) matches Some(v) ==> v is Text
            },
            Err(error) => {
                &&& error is InvalidHeaderField
                &&& opt_value(value) matches Some(v) && !(v is Text)
            },
        },
{
    match value {
        None => Ok(None),
        Some(HdrVar::Str(s)) => Ok(Some(s.to_owned())),
        _ => Err(UnmarshalError::InvalidHeaderField),
    }
}

/// The header that the values of the fields, by code, make.
fn collect_fields<'buf>(values: &Vec<Option<HdrVar<'buf>>>) -> (header: Result<
    DynamicHeader,
    UnmarshalError,
>)
    requires
        values@.len() == 10,
    ensures
        match header {
            Ok(header) => {
                &&& header@.object == value_text(opt_value(values@[1]))
                &&& header@.interface == value_text(opt_value(values@[2]))
                &&& header@.member == value_text(opt_value(values@[3]))
                &&& header@.error_name == value_text(opt_value(values@[4]))
                &&& header@.response_serial == value_number(opt_value(values@[5]))
                &&& header@.destination == value_text(opt_value(values@[6]))
                &&& header@.sender == value_text(opt_value(values@[7]))
                &&& header@.signature == value_text(opt_value(values@[8]))
                &&& header@.num_fds == value_number(opt_value(values@[9]))
                &&& header@.serial is None
                &&& forall|code: u8|
                    1 <= code <= 9 ==> right_kind(code, opt_value(#[trigger] values@[code as int]))
            },
            Err(error) => {
                &&& error is InvalidHeaderField
                &&& exists|code: u8|
                    1 <= code <= 9 && !right_kind(code, opt_value(#[trigger] values@[code as int]))
            },
        },
{
    let mut header = DynamicHeader::default();
    match values[1] {
        None => {},
        Some(HdrVar::Path(object)) => {
            header.object = Some(object.as_str().to_owned());
        },
        _ => {
            assert(!right_kind(1u8, opt_value(values@[1u8 as int])));
            return Err(UnmarshalError::InvalidHeaderField);
        },
    }
    match text_field(values[2]) {
        Ok(s) => {
            header.interface = s;
        },
        Err(error) => {
            assert(!right_kind(2u8, opt_value(values@[2u8 as int])));
            return Err(error);
        },
    }
    match text_field(values[3]) {
        Ok(s) => {
            header.member = s;
        },
        Err(error) => {
            assert(!right_kind(3u8, opt_value(values@[3u8 as int])));
            return Err(error);
        },
    }
    match text_field(values[4]) {
        Ok(s) => {
            header.error_name = s;
        },
        Err(error) => {
            assert(!right_kind(4u8, opt_value(values@[4u8 as int])));
            return Err(error);
        },
    }
    match values[5] {
        None => {},
        Some(HdrVar::U32(number)) if number != 0 => {
            header.response_serial = Serial::new(number);
        },
        _ => {
            assert(!right_kind(5u8, opt_value(values@[5u8 as int])));
            return Err(UnmarshalError::InvalidHeaderField);
        },
    }
    match text_field(values[6]) {
        Ok(s) => {
            header.destination = s;
        },
        Err(error) => {
            assert(!right_kind(6u8, opt_value(values@[6u8 as int])));
            return Err(error);
        },
    }
    match text_field(values[7]) {
        Ok(s) => {
            header.sender = s;
        },
        Err(error) => {
            assert(!right_kind(7u8, opt_value(values@[7u8 as int])));
            return Err(error);
        },
    }
    match values[8] {
        None => {},
        Some(HdrVar::Sig(sig)) => {
            header.signature = Some(sig.as_str().to_owned());
        },
        _ => {
            assert(!right_kind(8u8, opt_value(values@[8u8 as int])));
            return Err(UnmarshalError::InvalidHeaderField);
        },
    }
    match values[9] {
        None => {},
        Some(HdrVar::U32(number)) => {
            header.num_fds = Some(number);
        },
        _ => {
            assert(!right_kind(9u8, opt_value(values@[9u8 as int])));
            return Err(UnmarshalError::InvalidHeaderField);
        },
    }
    Ok(header)
}

/// Reads a field and moves the context behind it.
fn read_field<'buf>(ctx: &mut UnmarshalContext<'buf>) -> (result: Result<
    (u8, HdrVar<'buf>),
    UnmarshalError,
>)
    requires
        old(ctx).offset <= old(ctx).buf@.len(),
    ensures
        final(ctx).same_message(*old(ctx)),
        match result {
            Ok((code, value)) => {
                &&& field_at(old(ctx).buf@, old(ctx).offset as int, old(ctx).byteorder) == Ok::<
                    (int, u8, FieldValue),
                    UnmarshalError,
                >((final(ctx).offset as int, code, value@))
                &&& code <= 9
                &&& old(ctx).offset < final(ctx).offset <= final(ctx).buf@.len()
            },
            Err(error) => field_at(old(ctx).buf@, old(ctx).offset as int, old(ctx).byteorder)
                == Err::<(int, u8, FieldValue), UnmarshalError>(error),
        },
{
    proof {
        lemma_field_advances(ctx.buf@, ctx.offset as int, ctx.byteorder);
    }
    match ctx.align_to(8) {
        Ok(_) => {},
        Err(error) => {
            return Err(error);
        },
    }
    let code: u8 = match <u8 as Unmarshal>::unmarshal(ctx) {
        Ok((_, code)) => code,
        Err(error) => {
            return Err(error);
        },
    };
    match HdrVar::unmarshal(ctx) {
        Ok((_, value)) => {
            if code > 9 {
                Err(UnmarshalError::InvalidHeaderField)
            } else {
                Ok((code, value))
            }
        },
        Err(error) => Err(error),
    }
}

/// Whether the values are, by code, those of the last fields with that code.
spec fn values_of<'buf>(
    values: Seq<Option<HdrVar<'buf>>>,
    fields: Seq<(u8, FieldValue)>,
) -> bool {
    &&& values.len() == 10
    &&& forall|code: u8|
        0 <= code <= 9 ==> opt_value(#[trigger] values[code as int]) == last_field(fields, code)
}

/// What is left to read of the fields up to `end`, put behind those that were read.
spec fn fields_read(
    done: Seq<(u8, FieldValue)>,
    rest: Result<Seq<(u8, FieldValue)>, UnmarshalError>,
) -> Result<Seq<(u8, FieldValue)>, UnmarshalError> {
    match rest {
        Ok(rest) => Ok(done + rest),
        Err(error) => Err(error),
    }
}

/// Reads the fields up to `end`. Returns the values by code.
fn read_fields<'buf>(ctx: &mut UnmarshalContext<'buf>, end: usize) -> (result: Result<
    Vec<Option<HdrVar<'buf>>>,
    UnmarshalError,
>)
    requires
        old(ctx).offset <= end <= old(ctx).buf@.len(),
    ensures
        final(ctx).same_message(*old(ctx)),
        match fields_at(
            old(ctx).buf@,
            old(ctx).offset as int,
            end as int,
            old(ctx).byteorder,
        ) {
            Ok(fields) => {
                &&& result matches Ok(values) && values_of(values@, fields)
                &&& final(ctx).offset == end
            },
            Err(error) => result matches Err(e) && e == error,
        },
{
    let ghost all = fields_at(ctx.buf@, ctx.offset as int, end as int, ctx.byteorder);
    let mut values: Vec<Option<HdrVar<'buf>>> = Vec::new();
    let mut i: usize = 0;
    while i < 10
        invariant
            i <= 10,
            values@.len() == i,
            forall|j: int| 0 <= j < i ==> (#[trigger] values@[j]) is None,
        decreases 10 - i,
    {
        values.push(None);
        i += 1;
    }
    let ghost mut done = Seq::<(u8, FieldValue)>::empty();
    proof {
        if let Ok(rest) = all {
            assert(done + rest =~= rest);
        }
    }
    while ctx.offset < end
        invariant
            ctx.same_message(*old(ctx)),
            end <= ctx.buf@.len(),
            ctx.offset <= ctx.buf@.len(),
            values_of(values@, done),
            all == fields_read(
                done,
                fields_at(ctx.buf@, ctx.offset as int, end as int, ctx.byteorder),
            ),
            all == fields_at(
                old(ctx).buf@,
                old(ctx).offset as int,
                end as int,
                old(ctx).byteorder,
            ),
        decreases ctx.buf@.len() - ctx.offset,
    {
        match read_field(ctx) {
            Ok((code, value)) => {
                values.set(code as usize, Some(value));
                proof {
                    let before = done;
                    done = done.push((code, value@));
                    assert(done.drop_last() =~= before);
                    if let Ok(rest) = fields_at(
                        ctx.buf@,
                        ctx.offset as int,
                        end as int,
                        ctx.byteorder,
                    ) {
                        assert(before + (seq![(code, value@)] + rest) =~= done + rest);
                    }
                }
            },
            Err(error) => {
                return Err(error);
            },
        }
    }
    if ctx.offset != end {
        return Err(UnmarshalError::NotEnoughBytesForCollection);
    }
    assert(done + seq![] =~= done);
    Ok(values)
}

impl Signature for DynamicHeader {
    open spec fn is_sig(sig: Seq<char>) -> bool {
        sig == seq!['a', '{', 'y', 'v', '}']
    }

    open spec fn is_align(align: int) -> bool {
        align == 4
    }

    fn signature() -> String {
        proof {
            reveal_strlit("a{yv}");
            assert("a{yv}"@ =~= seq!['a', '{', 'y', 'v', '}']);
        }
        "a{yv}".to_owned()
    }

    fn alignment() -> usize {
        4
    }
}

impl<'buf> Unmarshal<'buf> for DynamicHeader {
    open spec fn unmarshals(
        ctx: UnmarshalContext<'buf>,
        result: Result<(usize, DynamicHeader), UnmarshalError>,
    ) -> bool {
        match result {
            Ok((size, header)) => dynamic_header_at(
                ctx.buf@,
                ctx.offset as int,
                ctx.byteorder,
            ) == Ok::<(int, HeaderView), UnmarshalError>((ctx.offset + size, header@)),
            Err(error) => dynamic_header_at(ctx.buf@, ctx.offset as int, ctx.byteorder) == Err::<
                (int, HeaderView),
                UnmarshalError,
            >(error),
        }
    }

    fn unmarshal(ctx: &mut UnmarshalContext<'buf>) -> Result<
        (usize, DynamicHeader),
        UnmarshalError,
    > {
        reveal(dynamic_header_at);
        let begin: usize = ctx.offset;
        let length: usize = match <u32 as Unmarshal>::unmarshal(ctx) {
            Ok((_, length)) => length as usize,
            Err(error) => {
                return Err(error);
            },
        };
        let start: usize = ctx.offset;
        let ghost buf = ctx.buf@;
        let ghost order = ctx.byteorder;
        proof {
            utils::lemma_align_up(start + length, 8);
        }
        if length > ctx.buf.len() - start {
            return Err(UnmarshalError::NotEnoughBytes);
        }
        let end: usize = start + length;
        if (8 - end % 8) % 8 > ctx.buf.len() - end {
            return Err(UnmarshalError::NotEnoughBytes);
        }
        let values = match read_fields(ctx, end) {
            Ok(values) => values,
            Err(error) => {
                return Err(error);
            },
        };
        let ghost fields = fields_at(buf, start as int, end as int, order)->Ok_0;
        let header = match collect_fields(&values) {
            Ok(header) => header,
            Err(error) => {
                proof {
                    let code = choose|code: u8|
                        1 <= code <= 9 && !right_kind(
                            code,
                            opt_value(#[trigger] values@[code as int]),
                        );
                    assert(!right_kind(code, last_field(fields, code)));
                }
                return Err(error);
            },
        };
        proof {
            assert forall|code: u8| 1 <= code <= 9 implies right_kind(
                code,
                #[trigger] last_field(fields, code),
            ) by {
                assert(right_kind(code, opt_value(values@[code as int])));
            }
            assert(opt_value(values@[1u8 as int]) == last_field(fields, 1));
            assert(opt_value(values@[2u8 as int]) == last_field(fields, 2));
            assert(opt_value(values@[3u8 as int]) == last_field(fields, 3));
            assert(opt_value(values@[4u8 as int]) == last_field(fields, 4));
            assert(opt_value(values@[5u8 as int]) == last_field(fields, 5));
            assert(opt_value(values@[6u8 as int]) == last_field(fields, 6));
            assert(opt_value(values@[7u8 as int]) == last_field(fields, 7));
            assert(opt_value(values@[8u8 as int]) == last_field(fields, 8));
            assert(opt_value(values@[9u8 as int]) == last_field(fields, 9));
            assert(header@ =~= header_of(fields));
        }
        if !header.validate() {
            return Err(UnmarshalError::InvalidHeaderField);
        }
        match ctx.align_to(8) {
            Ok(_) => Ok((ctx.offset - begin, header)),
            Err(error) => Err(error),
        }
    }
}

/// A run of valid fields with an invalid one behind it.
pub(crate) proof fn lemma_valid_prefix_stops(fields: Seq<(u8, FieldValue)>, count: int)
    requires
        0 <= count < fields.len(),
        valid_prefix(fields.take(count)) == count,
        field_error(fields[count]) is Some,
    ensures
        valid_prefix(fields) == count,
    decreases fields.len(),
{
    let front = fields.drop_last();
    if count == fields.len() - 1 {
        assert(front =~= fields.take(count));
    } else {
        assert(front.take(count) =~= fields.take(count));
        lemma_valid_prefix_stops(front, count);
    }
}

/// One more field behind a run of fields.
pub(crate) proof fn lemma_push_field(
    start: Seq<u8>,
    done: Seq<(u8, FieldValue)>,
    field: (u8, FieldValue),
    order: ByteOrder,
)
    ensures
        with_fields(start, done + seq![field], order) == with_field(
            with_fields(start, done, order),
            field,
            order,
        ),
        valid_prefix(done) == done.len() && field_error(field) is None ==> valid_prefix(
            done + seq![field],
        ) == done.len() + 1,
{
    let all = done + seq![field];
    assert(all.drop_last() =~= done);
    assert(all.last() == field);
}

/// The value of a field is written behind what is there.
pub(crate) proof fn lemma_with_value_prefix(buf: Seq<u8>, value: FieldValue, order: ByteOrder)
    ensures
        buf.len() <= hdr_var::with_value(buf, value, order).len(),
        hdr_var::with_value(buf, value, order).subrange(0, buf.len() as int) == buf,
{
    assert(hdr_var::with_value(buf, value, order).subrange(0, buf.len() as int) =~= buf);
}

/// The first fields are written before the others.
pub(crate) proof fn lemma_with_fields_prefix(
    start: Seq<u8>,
    fields: Seq<(u8, FieldValue)>,
    count: int,
    order: ByteOrder,
)
    requires
        0 <= count <= fields.len(),
    ensures
        with_fields(start, fields.take(count), order).is_prefix_of(
            with_fields(start, fields, order),
        ),
    decreases fields.len(),
{
    let first = with_fields(start, fields.take(count), order);
    let all = with_fields(start, fields, order);
    if count == fields.len() {
        assert(fields.take(count) =~= fields);
        assert(first =~= all.subrange(0, first.len() as int));
    } else {
        let front = fields.drop_last();
        let before = with_fields(start, front, order);
        lemma_with_fields_prefix(start, front, count, order);
        assert(front.take(count) =~= fields.take(count));
        lemma_with_field_length(before, fields.last(), order);
        assert forall|i: int| 0 <= i < first.len() implies first[i] == all[i] by {
            assert(first[i] == before.subrange(0, first.len() as int)[i]);
            assert(before[i] == all.take(before.len() as int)[i]);
        }
        assert(first =~= all.subrange(0, first.len() as int));
    }
}

/// Fields are written behind what is there.
pub(crate) proof fn lemma_with_fields_length(
    start: Seq<u8>,
    fields: Seq<(u8, FieldValue)>,
    order: ByteOrder,
)
    ensures
        start.len() <= with_fields(start, fields, order).len(),
        with_fields(start, fields, order).take(start.len() as int) == start,
    decreases fields.len(),
{
    if fields.len() == 0 {
        assert(start.take(start.len() as int) =~= start);
    } else {
        let front = with_fields(start, fields.drop_last(), order);
        lemma_with_fields_length(start, fields.drop_last(), order);
        lemma_with_field_length(front, fields.last(), order);
        assert(with_fields(start, fields, order).take(start.len() as int) =~= front.take(
            start.len() as int,
        ));
    }
}

pub(crate) proof fn lemma_with_field_length(buf: Seq<u8>, field: (u8, FieldValue), order: ByteOrder)
    ensures
        buf.len() < with_field(buf, field, order).len(),
        with_field(buf, field, order).take(buf.len() as int) == buf,
{
    let padded = wire_format::padded(buf, 8);
    let coded = padded.push(field.0);
    utils::lemma_align_up(buf.len() as int, 8);
    let after = with_field(buf, field, order);
    assert(coded.len() <= after.len() && after.take(coded.len() as int) =~= coded);
    assert forall|i: int| 0 <= i < buf.len() implies after[i] == buf[i] by {
        assert(after[i] == after.take(coded.len() as int)[i]);
    }
    assert(after.take(buf.len() as int) =~= buf);
}

/// Writes a field.
pub(crate) fn write_field(code: u8, value: &HdrVar<'_>, order: ByteOrder, buf: &mut Vec<u8>)
    requires
        !(value@ is Other),
    ensures
        final(buf)@ == with_field(old(buf)@, (code, value@), order),
{
    wire_format::pad_to_align(8, buf);
    buf.push(code);
    value.marshal(order, buf);
}

/// A field of a message that is to be sent. Its text was not checked yet.
#[derive(Clone, Copy)]
pub enum OutField<'a> {
    Path(&'a str),
    Text(&'a str),
    Number(u32),
    Signature(&'a str),
}

impl<'a> View for OutField<'a> {
    type V = FieldValue;

    open spec fn view(&self) -> FieldValue {
        match self {
            OutField::Path(s) => FieldValue::Path(s@),
            OutField::Text(s) => FieldValue::Text(s@),
            OutField::Number(number) => FieldValue::Number(*number),
            OutField::Signature(s) => FieldValue::Signature(s@),
        }
    }
}

/// What the fields hold.
pub open spec fn out_fields<'a>(fields: Seq<(u8, OutField<'a>)>) -> Seq<(u8, FieldValue)> {
    Seq::new(fields.len(), |i: int| (fields[i].0, fields[i].1@))
}

/// Adds a field, if it is there.
fn add_text<'a>(fields: &mut Vec<(u8, OutField<'a>)>, code: u8, s: &'a Option<String>)
    ensures
        out_fields(final(fields)@) == out_fields(old(fields)@) + opt_text_field(
            code,
            opt_text(*s),
        ),
{
    if let Some(s) = s {
        fields.push((code, OutField::Text(s.as_str())));
    }
    assert(out_fields(fields@) =~= out_fields(old(fields)@) + opt_text_field(code, opt_text(*s)));
}

/// Adds a field, if it is there.
fn add_field<'a>(fields: &mut Vec<(u8, OutField<'a>)>, code: u8, value: Option<OutField<'a>>)
    ensures
        out_fields(final(fields)@) == out_fields(old(fields)@) + opt_field(
            code,
            match value {
                Some(value) => Some(value@),
                None => None,
            },
        ),
{
    let ghost value_view = match value {
        Some(value) => Some(value@),
        None => None,
    };
    if let Some(value) = value {
        fields.push((code, value));
    }
    assert(out_fields(fields@) =~= out_fields(old(fields)@) + opt_field(code, value_view));
}

/// The fields of a message, in the order in which they are written.
pub(crate) fn collect_out_fields<'a>(
    header: &'a DynamicHeader,
    body_sig: Option<&'a str>,
    fd_count: u32,
) -> (fields: Vec<(u8, OutField<'a>)>)
    ensures
        out_fields(fields@) == header_fields(
            header@,
            match body_sig {
                Some(s) => Some(s@),
                None => None,
            },
            fd_count,
        ),
{
    let mut fields: Vec<(u8, OutField<'a>)> = Vec::new();
    assert(out_fields(fields@) =~= seq![]);
    let object = match &header.object {
        Some(s) => Some(OutField::Path(s.as_str())),
        None => None,
    };
    add_field(&mut fields, 1, object);
    add_text(&mut fields, 2, &header.interface);
    add_text(&mut fields, 3, &header.member);
    add_text(&mut fields, 4, &header.error_name);
    let response_serial = match &header.response_serial {
        Some(serial) => Some(OutField::Number(serial.get())),
        None => None,
    };
    add_field(&mut fields, 5, response_serial);
    add_text(&mut fields, 6, &header.destination);
    add_text(&mut fields, 7, &header.sender);
    let signature = match body_sig {
        Some(s) => Some(OutField::Signature(s)),
        None => None,
    };
    add_field(&mut fields, 8, signature);
    let descriptors = if fd_count != 0 {
        Some(OutField::Number(fd_count))
    } else {
        None
    };
    add_field(&mut fields, 9, descriptors);
    proof {
        let h = header@;
        assert(out_fields(fields@) =~= header_fields(
            h,
            match body_sig {
                Some(s) => Some(s@),
                None => None,
            },
            fd_count,
        ));
    }
    fields
}

/// Checks a field and writes it. An invalid one is not written.
fn write_checked(code: u8, value: OutField<'_>, order: ByteOrder, buf: &mut Vec<u8>) -> (result:
    Result<(), MarshalError>)
    ensures
        match field_error((code, value@)) {
            None => result is Ok && final(buf)@ == with_field(old(buf)@, (code, value@), order),
            Some(error) => {
                &&& result == Err::<(), MarshalError>(MarshalError::Validation(error))
                &&& final(buf)@ == old(buf)@
            },
        },
{
    match value {
        OutField::Path(s) => match ObjectPath::new(s) {
            Ok(path) => {
                write_field(code, &HdrVar::Path(path), order, buf);
            },
            Err(_) => {
                return Err(MarshalError::Validation(ValidationError::InvalidObjectPath));
            },
        },
        OutField::Text(s) => {
            if code == 2 && !wire_format::validate_interface(s) {
                return Err(MarshalError::Validation(ValidationError::InvalidInterface));
            }
            if code == 3 && !wire_format::validate_membername(s) {
                return Err(MarshalError::Validation(ValidationError::InvalidMembername));
            }
            if code == 4 && !wire_format::validate_errorname(s) {
                return Err(MarshalError::Validation(ValidationError::InvalidErrorname));
            }
            if (code == 6 || code == 7) && !wire_format::validate_busname(s) {
                return Err(MarshalError::Validation(ValidationError::InvalidBusname));
            }
            write_field(code, &HdrVar::Str(s), order, buf);
        },
        OutField::Number(number) => {
            write_field(code, &HdrVar::U32(number), order, buf);
        },
        OutField::Signature(s) => {
            write_field(code, &HdrVar::Sig(SigStr::new_no_val(s)), order, buf);
        },
    }
    Ok(())
}

/// Writes the fields up to the first one that is invalid.
pub(crate) fn write_fields<'a>(
    fields: &Vec<(u8, OutField<'a>)>,
    order: ByteOrder,
    buf: &mut Vec<u8>,
) -> (result: Result<(), MarshalError>)
    ensures
        ({
            let all = out_fields(fields@);
            let count = valid_prefix(all);
            &&& 0 <= count <= all.len()
            &&& final(buf)@ == with_fields(old(buf)@, all.take(count), order)
            &&& if count == all.len() {
                result is Ok
            } else {
                &&& field_error(all[count]) is Some
                &&& result == Err::<(), MarshalError>(
                    MarshalError::Validation(field_error(all[count])->Some_0),
                )
            }
        }),
{
    let ghost all = out_fields(fields@);
    let ghost start = buf@;
    let mut i: usize = 0;
    while i < fields.len()
        invariant
            i <= fields@.len(),
            all == out_fields(fields@),
            start == old(buf)@,
            buf@ == with_fields(start, all.take(i as int), order),
            valid_prefix(all.take(i as int)) == i,
        decreases fields@.len() - i,
    {
        let field = fields[i];
        let ghost done = all.take(i as int);
        proof {
            assert(all[i as int] == (field.0, field.1@));
            lemma_push_field(start, done, all[i as int], order);
            assert(all.take(i as int + 1) =~= done + seq![all[i as int]]);
        }
        match write_checked(field.0, field.1, order, buf) {
            Ok(()) => {},
            Err(error) => {
                proof {
                    lemma_valid_prefix_stops(all, i as int);
                }
                return Err(error);
            },
        }
        i += 1;
    }
    assert(all.take(i as int) =~= all);
    Ok(())
}

// ---------------------------------------------------------------------------
// What fields look like on the wire
// ---------------------------------------------------------------------------

/// The four bytes at `at` are the number.
pub open spec fn number_stands_at(buf: Seq<u8>, at: int, number: int, order: ByteOrder) -> bool {
    &&& 0 <= at
    &&& at + 4 <= buf.len()
    &&& number == match order {
        ByteOrder::LittleEndian => buf[at] + 256 * buf[at + 1] + 65536 * buf[at + 2] + 16777216
            * buf[at + 3],
        ByteOrder::BigEndian => 16777216 * buf[at] + 65536 * buf[at + 1] + 256 * buf[at + 2]
            + buf[at + 3],
    }
}

/// At `at` stand the length of the text in four bytes, the text and a zero byte, and nothing
/// follows.
pub open spec fn text_stands_at(buf: Seq<u8>, at: int, s: Seq<char>, order: ByteOrder) -> bool {
    let bytes = encode_utf8(s);
    &&& number_stands_at(buf, at, bytes.len() as int, order)
    &&& buf.len() == at + 4 + bytes.len() + 1
    &&& buf.subrange(at + 4, at + 4 + bytes.len()) == bytes
    &&& buf.last() == 0
}

/// A field that is written starts at the next multiple of eight with its code and the type of
/// its value: one character, with its length before it and a zero byte behind it. The value
/// comes right behind that.
pub proof fn law_field_layout(buf: Seq<u8>, code: u8, value: FieldValue, order: ByteOrder)
    requires
        !(value is Other),
        value matches FieldValue::Path(s) ==> encode_utf8(s).len() <= u32::MAX,
        value matches FieldValue::Text(s) ==> encode_utf8(s).len() <= u32::MAX,
        value matches FieldValue::Signature(s) ==> encode_utf8(s).len() <= 255,
    ensures
        ({
            let after = with_field(buf, (code, value), order);
            let at = utils::align_up(buf.len() as int, 8);
            &&& buf.len() <= at < buf.len() + 8
            &&& at % 8 == 0
            &&& after.take(buf.len() as int) == buf
            &&& forall|i: int| buf.len() <= i < at ==> after[i] == 0
            &&& after[at] == code
            &&& after[at + 1] == 1
            &&& after[at + 3] == 0
            &&& after.len() > at + 4
            &&& match value {
                FieldValue::Path(s) => after[at + 2] as int == 'o' as int && text_stands_at(
                    after,
                    at + 4,
                    s,
                    order,
                ),
                FieldValue::Text(s) => after[at + 2] as int == 's' as int && text_stands_at(
                    after,
                    at + 4,
                    s,
                    order,
                ),
                FieldValue::Number(n) => after[at + 2] as int == 'u' as int && number_stands_at(
                    after,
                    at + 4,
                    n as int,
                    order,
                ) && after.len() == at + 8,
                FieldValue::Signature(s) => {
                    &&& after[at + 2] as int == 'g' as int
                    &&& after[at + 4] == encode_utf8(s).len()
                    &&& after.subrange(at + 5, after.len() - 1) == encode_utf8(s)
                    &&& after.last() == 0
                },
                FieldValue::Other => true,
            }
        }),
{
    let at = utils::align_up(buf.len() as int, 8);
    utils::lemma_align_up(buf.len() as int, 8);
    let after = with_field(buf, (code, value), order);
    let start = field_start(buf, code, value);
    lemma_field_parts(buf, code, value, order);
    assert(start.len() == at + 4);
    assert forall|i: int| 0 <= i < at + 4 implies after[i] == start[i] by {}
    assert(after.take(buf.len() as int) =~= buf);
    match value {
        FieldValue::Path(s) => {
            lemma_text_stands(start, s, order);
        },
        FieldValue::Text(s) => {
            lemma_text_stands(start, s, order);
        },
        FieldValue::Number(n) => {
            lemma_number_stands(start, n, seq![], order);
            assert(start + utils::u32_bytes(n, order) + seq![] =~= after);
        },
        FieldValue::Signature(s) => {
            let bytes = encode_utf8(s);
            assert(after =~= start + seq![bytes.len() as u8] + bytes + seq![0u8]);
            assert(after.subrange(at + 5, after.len() - 1) =~= bytes);
        },
        FieldValue::Other => {},
    }
}

/// The type of the value of a field.
spec fn type_char(value: FieldValue) -> char {
    match value {
        FieldValue::Path(_) => 'o',
        FieldValue::Text(_) => 's',
        FieldValue::Number(_) => 'u',
        FieldValue::Signature(_) => 'g',
        FieldValue::Other => 'v',
    }
}

/// The bytes of a field before its value.
spec fn field_start(buf: Seq<u8>, code: u8, value: FieldValue) -> Seq<u8> {
    wire_format::padded(buf, 8) + seq![code, 1u8, type_char(value) as u8, 0u8]
}

proof fn lemma_field_parts(buf: Seq<u8>, code: u8, value: FieldValue, order: ByteOrder)
    requires
        !(value is Other),
    ensures
        field_start(buf, code, value).len() == utils::align_up(buf.len() as int, 8) + 4,
        with_field(buf, (code, value), order) == field_start(buf, code, value) + match value {
            FieldValue::Path(s) => wire_format::string_bytes(s, order),
            FieldValue::Text(s) => wire_format::string_bytes(s, order),
            FieldValue::Number(n) => utils::u32_bytes(n, order),
            FieldValue::Signature(s) => wire_format::signature_bytes(s),
            FieldValue::Other => seq![],
        },
{
    let name = type_char(value);
    let coded = wire_format::padded(buf, 8).push(code);
    let typed = coded + wire_format::signature_bytes(seq![name]);
    let start = field_start(buf, code, value);
    utils::lemma_align_up(buf.len() as int, 8);
    assert(is_ascii_chars(seq![name]));
    is_ascii_chars_encode_utf8(seq![name]);
    assert(encode_utf8(seq![name]) =~= seq![name as u8]);
    assert(typed =~= start);
    assert(wire_format::padded(start, 4) =~= start) by {
        utils::lemma_align_up(start.len() as int, 4);
        assert(start.len() % 4 == 0);
        assert(utils::align_up(start.len() as int, 4) == start.len());
    }
}

/// A text that is written stands where it was written.
pub(crate) proof fn lemma_text_stands(before: Seq<u8>, s: Seq<char>, order: ByteOrder)
    requires
        encode_utf8(s).len() <= u32::MAX,
    ensures
        text_stands_at(
            before + wire_format::string_bytes(s, order),
            before.len() as int,
            s,
            order,
        ),
{
    let bytes = encode_utf8(s);
    let all = before + wire_format::string_bytes(s, order);
    let length = utils::u32_bytes(bytes.len() as u32, order);
    utils::lemma_u32_round_trip(bytes.len() as u32, order);
    lemma_number_stands(before, bytes.len() as u32, bytes + seq![0u8], order);
    assert(all =~= before + length + (bytes + seq![0u8]));
    let at = before.len() as int;
    assert(all.subrange(at + 4, at + 4 + bytes.len()) =~= bytes);
}

/// A number that is written stands where it was written.
pub(crate) proof fn lemma_number_stands(before: Seq<u8>, number: u32, behind: Seq<u8>, order: ByteOrder)
    ensures
        number_stands_at(
            before + utils::u32_bytes(number, order) + behind,
            before.len() as int,
            number as int,
            order,
        ),
{
    let bytes = utils::u32_bytes(number, order);
    let all = before + bytes + behind;
    let at = before.len() as int;
    utils::lemma_u32_round_trip(number, order);
    assert(all[at] == bytes[0]);
    assert(all[at + 1] == bytes[1]);
    assert(all[at + 2] == bytes[2]);
    assert(all[at + 3] == bytes[3]);
}

/// A header that is read has only fields that are what their kinds have to be, and the serial of
/// the call that is answered is not zero.
pub proof fn law_read_header_is_valid(buf: Seq<u8>, offset: int, order: ByteOrder)
    ensures
        dynamic_header_at(buf, offset, order) matches Ok((end, h)) ==> {
            &&& h.object matches Some(s) ==> path::valid_path(s)
            &&& h.interface matches Some(s) ==> wire_format::interface_name(s)
            &&& h.member matches Some(s) ==> wire_format::member_name(s)
            &&& h.error_name matches Some(s) ==> wire_format::interface_name(s)
            &&& h.destination matches Some(s) ==> wire_format::bus_name(s)
            &&& h.sender matches Some(s) ==> wire_format::bus_name(s)
            &&& h.signature matches Some(s) ==> wire_format::parsed_signature(s) is Ok
            &&& h.response_serial != Some(0u32)
            &&& h.serial is None
        },
{
    reveal(dynamic_header_at);
    if let Ok((start, length)) = marshal::aligned_u32_at(buf, offset, order) {
        if let Ok(fields) = fields_at(buf, start, start + length, order) {
            if right_kinds(fields) {
                assert(right_kind(5, last_field(fields, 5)));
            }
        }
    }
}

/// An answer goes to the sender of what it answers and bears its serial. Apart from the name of
/// an error it has no other field.
pub proof fn law_answer_is_addressed(h: HeaderView, error_name: Option<Seq<char>>)
    ensures
        response_header(h, error_name).destination == h.sender,
        response_header(h, error_name).response_serial == h.serial,
        response_header(h, error_name).error_name == error_name,
        response_header(h, error_name).object is None,
        response_header(h, error_name).interface is None,
        response_header(h, error_name).member is None,
        response_header(h, error_name).sender is None,
        response_header(h, error_name).serial is None,
        response_header(h, error_name).signature is None,
        response_header(h, error_name).num_fds is None,
{
}

/// A field that is read has the code that stands at the next multiple of eight, which is at most
/// nine.
pub proof fn law_field_code_stands_there(buf: Seq<u8>, offset: int, order: ByteOrder)
    requires
        0 <= offset,
    ensures
        field_at(buf, offset, order) matches Ok((end, code, value)) ==> {
            let at = utils::align_up(offset, 8);
            &&& offset <= at < offset + 8
            &&& at % 8 == 0
            &&& at < buf.len()
            &&& code == buf[at]
            &&& code <= 9
        },
        utils::align_up(offset, 8) < buf.len() && buf[utils::align_up(offset, 8)] > 9 ==> field_at(
            buf,
            offset,
            order,
        ) is Err,
{
    utils::lemma_align_up(offset, 8);
}

/// A header in which a known field is of another kind than it has to be is refused: the object
/// has to be a path, the serial of the call that is answered and the number of descriptors have
/// to be numbers, the signature has to be one, and all others have to be text.
pub proof fn law_fields_of_wrong_kinds_are_refused(
    buf: Seq<u8>,
    offset: int,
    order: ByteOrder,
    start: int,
    length: u32,
    fields: Seq<(u8, FieldValue)>,
    code: u8,
)
    requires
        marshal::aligned_u32_at(buf, offset, order) == Ok::<(int, u32), UnmarshalError>(
            (start, length),
        ),
        utils::align_up(start + length, 8) <= buf.len(),
        fields_at(buf, start, start + length, order) == Ok::<
            Seq<(u8, FieldValue)>,
            UnmarshalError,
        >(fields),
        last_field(fields, code) matches Some(value) && {
            ||| code == 1 && !(value is Path)
            ||| code == 2 && !(value is Text)
            ||| code == 3 && !(value is Text)
            ||| code == 4 && !(value is Text)
            ||| code == 5 && !(value is Number)
            ||| code == 5 && value == FieldValue::Number(0)
            ||| code == 6 && !(value is Text)
            ||| code == 7 && !(value is Text)
            ||| code == 8 && !(value is Signature)
            ||| code == 9 && !(value is Number)
        },
    ensures
        dynamic_header_at(buf, offset, order) == Err::<(int, HeaderView), UnmarshalError>(
            UnmarshalError::InvalidHeaderField,
        ),
{
    reveal(dynamic_header_at);
    assert(!right_kind(code, last_field(fields, code)));
}

} // verus!
