//! The wire format: how integers, text and padding are laid out in a message, and the calls
//! into `rustbus` that write, read and check them.
use vstd::prelude::*;
use vstd::utf8::*;

use rustbus::params::validation::Error as RawValidation;
use rustbus::signature::Error as RawSignature;
use rustbus::wire::unmarshal::Error as RawError;
use rustbus::wire::unmarshal::Header as Raw;
use rustbus::ByteOrder as RawOrder;
use rustbus::MessageType as RawType;

use super::nesting;
use super::{ByteOrder, MessageType};
use crate::text;
use crate::utils;

verus! {

/// A file descriptor that travels with a message.
#[verifier::external_type_specification]
#[verifier::external_body]
pub struct ExUnixFd(rustbus::wire::UnixFd);

/// Why `rustbus` refused a value.
#[verifier::external_type_specification]
#[verifier::external_body]
pub struct ExRawUnmarshalError(rustbus::wire::unmarshal::Error);

/// A clone of a `rustbus::wire::UnixFd` stands for the same descriptor: it clones the `Arc`
/// that holds it.
pub assume_specification[ <rustbus::wire::UnixFd as Clone>::clone ](
    fd: &rustbus::wire::UnixFd,
) -> (copy: rustbus::wire::UnixFd)
    ensures
        copy == *fd,
;

/// The length of the part of the header that every message has.
pub const HEADER_LEN: usize = 12;

/// Why a signature is not one.
#[derive(Clone, Copy, Debug, PartialEq, Eq, Structural)]
pub enum SignatureError {
    TooManyTypes,
    ShouldBeBaseType,
    InvalidSignature,
    SignatureTooLong,
    NestingTooDeep,
    EmptySignature,
    EmptyStruct,
}

/// Why text is not what it has to be.
#[derive(Clone, Copy, Debug, PartialEq, Eq, Structural)]
pub enum ValidationError {
    InvalidSignature(SignatureError),
    InvalidObjectPath,
    InvalidBusname,
    InvalidErrorname,
    InvalidMembername,
    InvalidInterface,
    StringContainsNullByte,
    InvalidUtf8,
}

/// Why bytes could not be read as the value that was asked for.
#[derive(Debug, PartialEq, Eq)]
pub enum UnmarshalError {
    NotEnoughBytes,
    NotEnoughBytesForCollection,
    NotAllBytesUsed,
    InvalidByteOrder,
    InvalidType,
    WrongSignature,
    Validation(ValidationError),
    InvalidHeaderField,
    PaddingContainedData,
    InvalidBoolean,
    EndOfMessage,
    /// A variant lies deeper in arrays, structures and variants than it may.
    NestedTooDeep,
    /// The length of a text cannot be counted on this machine.
    TooLarge,
    /// A value does not fit its type.
    Value(rustbus::wire::unmarshal::Error),
}

/// Why a value could not be written.
#[derive(Debug, PartialEq, Eq)]
pub enum MarshalError {
    /// A message without a kind cannot be sent.
    InvalidType,
    Validation(ValidationError),
    /// A file descriptor was no longer there, or could not be duplicated.
    Descriptor,
    /// A value cannot be written for another reason.
    InvalidValue,
}

/// The part of the header that every message has.
#[derive(Clone, Copy, Debug, PartialEq, Eq, Structural)]
pub struct Header {
    pub byteorder: ByteOrder,
    pub typ: MessageType,
    pub flags: u8,
    pub version: u8,
    pub body_len: u32,
    pub serial: u32,
}

// ---------------------------------------------------------------------------
// Layout
// ---------------------------------------------------------------------------

/// Zero bytes.
pub open spec fn zeros(count: int) -> Seq<u8> {
    Seq::new(count as nat, |i: int| 0u8)
}

/// `buf` with zero bytes behind it, up to the next multiple of `align`.
pub open spec fn padded(buf: Seq<u8>, align: int) -> Seq<u8> {
    buf + zeros(utils::align_up(buf.len() as int, align) - buf.len())
}

/// Text with its length before it and a zero byte behind it.
pub open spec fn string_bytes(s: Seq<char>, order: ByteOrder) -> Seq<u8> {
    utils::u32_bytes(encode_utf8(s).len() as u32, order) + encode_utf8(s) + seq![0u8]
}

/// A signature with its length, in one byte, before it and a zero byte behind it.
pub open spec fn signature_bytes(s: Seq<char>) -> Seq<u8> {
    seq![encode_utf8(s).len() as u8] + encode_utf8(s) + seq![0u8]
}

/// Where the next value that is aligned to `align` starts.
pub open spec fn aligned_at(buf: Seq<u8>, offset: int, align: int) -> Result<int, UnmarshalError> {
    let end = utils::align_up(offset, align);
    if end > buf.len() {
        Err(UnmarshalError::NotEnoughBytes)
    } else if forall|i: int| offset <= i < end ==> buf[i] == 0 {
        Ok(end)
    } else {
        Err(UnmarshalError::PaddingContainedData)
    }
}

/// The integer at `offset`, and where it ends.
pub open spec fn u32_at(buf: Seq<u8>, offset: int, order: ByteOrder) -> Result<
    (int, u32),
    UnmarshalError,
> {
    if buf.len() - offset < 4 {
        Err(UnmarshalError::NotEnoughBytes)
    } else {
        Ok((offset + 4, utils::u32_value(buf.subrange(offset, offset + 4), order) as u32))
    }
}

/// The integer of eight bytes at `offset`, and where it ends.
pub open spec fn u64_at(buf: Seq<u8>, offset: int, order: ByteOrder) -> Result<
    (int, u64),
    UnmarshalError,
> {
    if buf.len() - offset < 8 {
        Err(UnmarshalError::NotEnoughBytes)
    } else {
        Ok((offset + 8, utils::u64_value(buf.subrange(offset, offset + 8), order) as u64))
    }
}

/// The text at `offset`, and where it ends.
pub open spec fn string_at(buf: Seq<u8>, offset: int, order: ByteOrder) -> Result<
    (int, Seq<char>),
    UnmarshalError,
> {
    match u32_at(buf, offset, order) {
        Err(error) => Err(error),
        Ok((start, length)) => {
            if buf.len() - start < length + 1 {
                Err(UnmarshalError::NotEnoughBytes)
            } else {
                let bytes = buf.subrange(start, start + length);
                if !valid_utf8(bytes) {
                    Err(UnmarshalError::Validation(ValidationError::InvalidUtf8))
                } else if decode_utf8(bytes).contains('\0') {
                    Err(UnmarshalError::Validation(ValidationError::StringContainsNullByte))
                } else {
                    Ok((start + length + 1, decode_utf8(bytes)))
                }
            }
        },
    }
}

/// The signature at `offset`, and where it ends.
pub open spec fn signature_at(buf: Seq<u8>, offset: int) -> Result<
    (int, Seq<char>),
    UnmarshalError,
> {
    if buf.len() - offset < 1 || buf.len() - offset < buf[offset] + 2 {
        Err(UnmarshalError::NotEnoughBytes)
    } else {
        let bytes = buf.subrange(offset + 1, offset + 1 + buf[offset]);
        if !valid_utf8(bytes) {
            Err(UnmarshalError::Validation(ValidationError::InvalidUtf8))
        } else {
            Ok((offset + buf[offset] + 2, decode_utf8(bytes)))
        }
    }
}

/// The kind of message that a byte of the header stands for.
pub open spec fn type_of_byte(byte: u8) -> Option<MessageType> {
    if byte == 1 {
        Some(MessageType::Call)
    } else if byte == 2 {
        Some(MessageType::Reply)
    } else if byte == 3 {
        Some(MessageType::Error)
    } else if byte == 4 {
        Some(MessageType::Signal)
    } else {
        None
    }
}

/// The byte order that the first byte of a message stands for.
pub open spec fn order_of_byte(byte: u8) -> Option<ByteOrder> {
    if byte == 0x6c {
        Some(ByteOrder::LittleEndian)
    } else if byte == 0x42 {
        Some(ByteOrder::BigEndian)
    } else {
        None
    }
}

/// The header at the start of `buf`.
pub open spec fn header_at_start(buf: Seq<u8>) -> Result<Header, UnmarshalError> {
    if buf.len() < HEADER_LEN {
        Err(UnmarshalError::NotEnoughBytes)
    } else {
        match (order_of_byte(buf[0]), type_of_byte(buf[1])) {
            (None, _) => Err(UnmarshalError::InvalidByteOrder),
            (_, None) => Err(UnmarshalError::InvalidType),
            (Some(order), Some(typ)) => Ok(
                Header {
                    byteorder: order,
                    typ,
                    flags: buf[2],
                    version: buf[3],
                    body_len: utils::u32_value(buf.subrange(4, 8), order) as u32,
                    serial: utils::u32_value(buf.subrange(8, 12), order) as u32,
                },
            ),
        }
    }
}

// ---------------------------------------------------------------------------
// Names
// ---------------------------------------------------------------------------

/// Names what `char::is_alphanumeric` of the standard library says of a character that is
/// not ASCII.
pub uninterp spec fn unicode_alphanumeric(c: char) -> bool;

/// Names what `char::is_numeric` of the standard library says of a character that is not
/// ASCII.
pub uninterp spec fn unicode_numeric(c: char) -> bool;

/// A letter or a digit.
pub open spec fn alphanumeric(c: char) -> bool {
    if c <= '\u{7f}' {
        'A' <= c <= 'Z' || 'a' <= c <= 'z' || '0' <= c <= '9'
    } else {
        unicode_alphanumeric(c)
    }
}

/// A digit.
pub open spec fn numeric(c: char) -> bool {
    if c <= '\u{7f}' {
        '0' <= c <= '9'
    } else {
        unicode_numeric(c)
    }
}

/// At least two parts with a dot between them, none of them empty, made of letters, digits,
/// underscores and, where `dash` says so, dashes. A part starts with a digit only where
/// `leading_digit` says so.
pub open spec fn dotted_name(s: Seq<char>, dash: bool, leading_digit: bool) -> bool {
    let parts = text::split_on(s, '.');
    parts.len() >= 2 && forall|i: int|
        0 <= i < parts.len() ==> {
            let part = #[trigger] parts[i];
            &&& part.len() > 0
            &&& (leading_digit || !numeric(part[0]))
            &&& forall|j: int|
                0 <= j < part.len() ==> alphanumeric(#[trigger] part[j]) || part[j] == '_' || (dash
                    && part[j] == '-')
        }
}

/// An interface name, or an error name.
pub open spec fn interface_name(s: Seq<char>) -> bool {
    dotted_name(s, false, false)
}

/// A bus name: a unique one, which starts with a colon, or a well-known one.
pub open spec fn bus_name(s: Seq<char>) -> bool {
    if s.len() > 0 && s[0] == ':' {
        dotted_name(s.skip(1), true, true)
    } else {
        dotted_name(s, true, false)
    }
}

/// The name of a method or a signal.
pub open spec fn member_name(s: Seq<char>) -> bool {
    s.len() > 0 && forall|i: int|
        0 <= i < s.len() ==> alphanumeric(#[trigger] s[i]) || s[i] == '_'
}

/// Calls `rustbus::params::validate_interface`: whether `s` is an interface name. In particular
/// a valid one starts with no digit, and apart from dots holds nothing but letters, digits and
/// underscores.
#[verifier::external_body]
pub(crate) fn validate_interface(s: &str) -> (valid: bool)
    ensures
        valid == interface_name(s@),
        valid && s@[0] > '\u{7f}' ==> !unicode_numeric(s@[0]),
        valid ==> forall|i: int|
            0 <= i < s@.len() && s@[i] > '\u{7f}' ==> unicode_alphanumeric(#[trigger] s@[i]),
{
    rustbus::params::validate_interface(s).is_ok()
}

/// Calls `rustbus::params::validate_errorname`: whether `s` is an error name, for which the
/// rules are those of interface names.
#[verifier::external_body]
pub(crate) fn validate_errorname(s: &str) -> (valid: bool)
    ensures
        valid == interface_name(s@),
{
    rustbus::params::validate_errorname(s).is_ok()
}

/// Calls `rustbus::params::validate_busname`: whether `s` is a bus name.
#[verifier::external_body]
pub(crate) fn validate_busname(s: &str) -> (valid: bool)
    ensures
        valid == bus_name(s@),
{
    rustbus::params::validate_busname(s).is_ok()
}

/// Calls `rustbus::params::validate_membername`: whether `s` is a member name.
#[verifier::external_body]
pub(crate) fn validate_membername(s: &str) -> (valid: bool)
    ensures
        valid == member_name(s@),
{
    rustbus::params::validate_membername(s).is_ok()
}

// ---------------------------------------------------------------------------
// Signatures and values
// ---------------------------------------------------------------------------

/// Names what `rustbus::signature::Type::parse_description` makes of a signature: the complete
/// types in it, each written out again, or the error.
pub uninterp spec fn parsed_signature(sig: Seq<char>) -> Result<Seq<Seq<char>>, SignatureError>;

/// Names what `rustbus::wire::validate_raw::validate_marshalled` makes of the bytes of `buf`
/// from `offset` on, read as the type at `index` in the signature `sig`: the number of bytes
/// that the value and the padding before it take, or the error.
pub uninterp spec fn value_size(
    little_endian: bool,
    offset: int,
    buf: Seq<u8>,
    sig: Seq<char>,
    index: int,
) -> Result<nat, RawError>;

/// A type that is written as one character.
pub open spec fn basic_type(c: char) -> bool {
    c == 'y' || c == 'b' || c == 'n' || c == 'q' || c == 'i' || c == 'u' || c == 'x' || c == 't'
        || c == 'd' || c == 'h' || c == 's' || c == 'o' || c == 'g' || c == 'v'
}

/// A signature of types that are written as one character, which is not too long.
pub open spec fn basic_types(sig: Seq<char>) -> bool {
    0 < sig.len() <= 255 && forall|i: int| 0 <= i < sig.len() ==> basic_type(#[trigger] sig[i])
}

/// The characters of a signature, each alone.
pub open spec fn each_alone(sig: Seq<char>) -> Seq<Seq<char>> {
    Seq::new(sig.len(), |i: int| seq![sig[i]])
}

/// Calls `rustbus::signature::Type::parse_description` and writes each type out again with
/// `to_str`. Beside the named result: only the empty signature is refused as empty, and an
/// accepted one has at most 255 bytes and at least one type. One that is made of types of one
/// character is accepted, and these are its types.
#[verifier::external_body]
pub(crate) fn parse_signature(sig: &str) -> (types: Result<Vec<String>, SignatureError>)
    ensures
        match types {
            Ok(types) => {
                &&& parsed_signature(sig@) == Ok::<Seq<Seq<char>>, SignatureError>(
                    types@.map_values(|t: String| t@),
                )
                &&& encode_utf8(sig@).len() <= 255
                &&& sig@.len() > 0
                &&& types@.len() > 0
                &&& basic_types(sig@) ==> types@.map_values(|t: String| t@) == each_alone(sig@)
            },
            Err(error) => {
                &&& parsed_signature(sig@) == Err::<Seq<Seq<char>>, SignatureError>(error)
                &&& (error is EmptySignature <==> sig@.len() == 0)
                &&& !basic_types(sig@)
            },
        },
{
    let mut texts = Vec::new();
    let types = rustbus::signature::Type::parse_description(sig).map_err(|e| match e {
        RawSignature::TooManyTypes => SignatureError::TooManyTypes,
        RawSignature::ShouldBeBaseType => SignatureError::ShouldBeBaseType,
        RawSignature::InvalidSignature => SignatureError::InvalidSignature,
        RawSignature::SignatureTooLong => SignatureError::SignatureTooLong,
        RawSignature::NestingTooDeep => SignatureError::NestingTooDeep,
        RawSignature::EmptySignature => SignatureError::EmptySignature,
        RawSignature::EmptyStruct => SignatureError::EmptyStruct,
    })?;
    for t in types {
        texts.push(String::new());
        t.to_str(texts.last_mut().unwrap());
    }
    Ok(texts)
}

/// Calls `rustbus::wire::validate_raw::validate_marshalled` with the type at `index` in the
/// signature `sig`. Beside the named result: a value that it accepts ends inside `buf`. It calls
/// itself for what an array, a structure or a variant holds, so that variants may not nest too
/// deep, and it adds five to the lengths of texts, which have to fit.
#[verifier::external_body]
pub(crate) fn validate_value(
    order: ByteOrder,
    offset: usize,
    buf: &[u8],
    sig: &str,
    index: usize,
) -> (size: Result<usize, RawError>)
    requires
        offset <= buf@.len(),
        parsed_signature(sig@) matches Ok(types) && index < types.len() && nesting::depth_error(
            order,
            buf@,
            offset as int,
            types[index as int],
        ) is None,
    ensures
        match size {
            Ok(size) => {
                &&& value_size(
                    order is LittleEndian,
                    offset as int,
                    buf@,
                    sig@,
                    index as int,
                ) == Ok::<nat, RawError>(size as nat)
                &&& offset + size <= buf@.len()
            },
            Err(error) => value_size(
                order is LittleEndian,
                offset as int,
                buf@,
                sig@,
                index as int,
            ) == Err::<nat, RawError>(error),
        },
{
    let types = rustbus::signature::Type::parse_description(sig).unwrap();
    let order = match order {
        ByteOrder::LittleEndian => RawOrder::LittleEndian,
        ByteOrder::BigEndian => RawOrder::BigEndian,
    };
    rustbus::wire::validate_raw::validate_marshalled(order, offset, buf, &types[index])
        .map_err(|e| e.1)
}

// ---------------------------------------------------------------------------
// Writing
// ---------------------------------------------------------------------------

/// Calls `rustbus::wire::util::pad_to_align`: appends zero bytes up to a multiple of
/// `align_to`.
#[verifier::external_body]
pub(crate) fn pad_to_align(align_to: usize, buf: &mut Vec<u8>)
    requires
        align_to > 0,
    ensures
        final(buf)@ == padded(old(buf)@, align_to as int),
{
    rustbus::wire::util::pad_to_align(align_to, buf)
}

/// Calls `rustbus::wire::util::write_u32`: appends the four bytes of `val`.
#[verifier::external_body]
pub(crate) fn write_u32(val: u32, order: ByteOrder, buf: &mut Vec<u8>)
    ensures
        final(buf)@ == old(buf)@ + utils::u32_bytes(val, order),
{
    let order = match order {
        ByteOrder::LittleEndian => RawOrder::LittleEndian,
        ByteOrder::BigEndian => RawOrder::BigEndian,
    };
    rustbus::wire::util::write_u32(val, order, buf)
}

/// Calls `rustbus::wire::util::write_u64`: appends the eight bytes of `val`.
#[verifier::external_body]
pub(crate) fn write_u64(val: u64, order: ByteOrder, buf: &mut Vec<u8>)
    ensures
        final(buf)@ == old(buf)@ + utils::u64_bytes(val, order),
{
    let order = match order {
        ByteOrder::LittleEndian => RawOrder::LittleEndian,
        ByteOrder::BigEndian => RawOrder::BigEndian,
    };
    rustbus::wire::util::write_u64(val, order, buf)
}

/// Calls `rustbus::wire::util::insert_u32` on the bytes from `at` on: overwrites four of them
/// with those of `val`.
#[verifier::external_body]
pub(crate) fn insert_u32(order: ByteOrder, val: u32, buf: &mut Vec<u8>, at: usize)
    requires
        at + 4 <= old(buf)@.len(),
    ensures
        final(buf)@ == old(buf)@.take(at as int) + utils::u32_bytes(val, order) + old(buf)@.skip(
            at + 4,
        ),
{
    let order = match order {
        ByteOrder::LittleEndian => RawOrder::LittleEndian,
        ByteOrder::BigEndian => RawOrder::BigEndian,
    };
    rustbus::wire::util::insert_u32(order, val, &mut buf[at..])
}

/// Calls `rustbus::wire::util::write_string`: appends the length of `val`, its bytes and a
/// zero byte.
#[verifier::external_body]
pub(crate) fn write_string(val: &str, order: ByteOrder, buf: &mut Vec<u8>)
    ensures
        final(buf)@ == old(buf)@ + string_bytes(val@, order),
{
    let order = match order {
        ByteOrder::LittleEndian => RawOrder::LittleEndian,
        ByteOrder::BigEndian => RawOrder::BigEndian,
    };
    rustbus::wire::util::write_string(val, order, buf)
}

/// Calls `rustbus::wire::util::write_signature`: appends the length of `val` in one byte, its
/// bytes and a zero byte.
#[verifier::external_body]
pub(crate) fn write_signature(val: &str, buf: &mut Vec<u8>)
    ensures
        final(buf)@ == old(buf)@ + signature_bytes(val@),
{
    rustbus::wire::util::write_signature(val, buf)
}

// ---------------------------------------------------------------------------
// Reading
// ---------------------------------------------------------------------------

/// Calls `rustbus::wire::util::align_offset`: how many bytes of padding stand at `offset`.
#[verifier::external_body]
pub(crate) fn align_offset(align_to: usize, buf: &[u8], offset: usize) -> (padding: Result<
    usize,
    UnmarshalError,
>)
    requires
        align_to > 0,
        offset <= buf@.len(),
    ensures
        match padding {
            Ok(padding) => aligned_at(buf@, offset as int, align_to as int) == Ok::<
                int,
                UnmarshalError,
            >(offset + padding),
            Err(error) => aligned_at(buf@, offset as int, align_to as int) == Err::<
                int,
                UnmarshalError,
            >(error),
        },
{
    match rustbus::wire::util::align_offset(align_to, buf, offset) {
        Ok(padding) => Ok(padding),
        Err(RawError::PaddingContainedData) => {
            Err(UnmarshalError::PaddingContainedData)
        },
        Err(_) => Err(UnmarshalError::NotEnoughBytes),
    }
}

/// Calls `rustbus::wire::util::parse_u32` on the bytes from `offset` on.
#[verifier::external_body]
pub(crate) fn read_u32(order: ByteOrder, buf: &[u8], offset: usize) -> (value: Result<
    u32,
    UnmarshalError,
>)
    requires
        offset <= buf@.len(),
    ensures
        match value {
            Ok(value) => u32_at(buf@, offset as int, order) == Ok::<(int, u32), UnmarshalError>(
                (offset + 4, value),
            ),
            Err(error) => u32_at(buf@, offset as int, order) == Err::<(int, u32), UnmarshalError>(
                error,
            ),
        },
{
    let order = match order {
        ByteOrder::LittleEndian => RawOrder::LittleEndian,
        ByteOrder::BigEndian => RawOrder::BigEndian,
    };
    match rustbus::wire::util::parse_u32(&buf[offset..], order) {
        Ok((_, value)) => Ok(value),
        Err(_) => Err(UnmarshalError::NotEnoughBytes),
    }
}

/// Calls `rustbus::wire::util::parse_u64` on the bytes from `offset` on.
#[verifier::external_body]
pub(crate) fn read_u64(order: ByteOrder, buf: &[u8], offset: usize) -> (value: Result<
    u64,
    UnmarshalError,
>)
    requires
        offset <= buf@.len(),
    ensures
        match value {
            Ok(value) => u64_at(buf@, offset as int, order) == Ok::<(int, u64), UnmarshalError>(
                (offset + 8, value),
            ),
            Err(error) => u64_at(buf@, offset as int, order) == Err::<(int, u64), UnmarshalError>(
                error,
            ),
        },
{
    let order = match order {
        ByteOrder::LittleEndian => RawOrder::LittleEndian,
        ByteOrder::BigEndian => RawOrder::BigEndian,
    };
    match rustbus::wire::util::parse_u64(&buf[offset..], order) {
        Ok((_, value)) => Ok(value),
        Err(_) => Err(UnmarshalError::NotEnoughBytes),
    }
}

/// Calls `rustbus::wire::util::unmarshal_str` on the bytes from `offset` on: the number of
/// bytes that the text takes, and the text. It adds five to the length that the bytes give,
/// which has to fit.
#[verifier::external_body]
pub(crate) fn unmarshal_str<'a>(order: ByteOrder, buf: &'a [u8], offset: usize) -> (result: Result<
    (usize, &'a str),
    UnmarshalError,
>)
    requires
        offset <= buf@.len(),
        u32_at(buf@, offset as int, order) matches Ok((_, length)) ==> length + 5 <= usize::MAX,
    ensures
        match result {
            Ok((size, s)) => string_at(buf@, offset as int, order) == Ok::<
                (int, Seq<char>),
                UnmarshalError,
            >((offset + size, s@)),
            Err(error) => string_at(buf@, offset as int, order) == Err::<
                (int, Seq<char>),
                UnmarshalError,
            >(error),
        },
{
    let order = match order {
        ByteOrder::LittleEndian => RawOrder::LittleEndian,
        ByteOrder::BigEndian => RawOrder::BigEndian,
    };
    rustbus::wire::util::unmarshal_str(order, &buf[offset..]).map_err(|e| match e {
        RawError::Validation(RawValidation::InvalidUtf8) => {
            UnmarshalError::Validation(ValidationError::InvalidUtf8)
        },
        RawError::Validation(_) => {
            UnmarshalError::Validation(ValidationError::StringContainsNullByte)
        },
        _ => UnmarshalError::NotEnoughBytes,
    })
}

/// Calls `rustbus::wire::util::unmarshal_signature` on the bytes from `offset` on: the number
/// of bytes that the signature takes, and the signature.
#[verifier::external_body]
pub(crate) fn unmarshal_signature<'a>(buf: &'a [u8], offset: usize) -> (result: Result<
    (usize, &'a str),
    UnmarshalError,
>)
    requires
        offset <= buf@.len(),
    ensures
        match result {
            Ok((size, s)) => signature_at(buf@, offset as int) == Ok::<
                (int, Seq<char>),
                UnmarshalError,
            >((offset + size, s@)),
            Err(error) => signature_at(buf@, offset as int) == Err::<
                (int, Seq<char>),
                UnmarshalError,
            >(error),
        },
{
    rustbus::wire::util::unmarshal_signature(&buf[offset..]).map_err(|e| match e {
        RawError::Validation(_) => {
            UnmarshalError::Validation(ValidationError::InvalidUtf8)
        },
        _ => UnmarshalError::NotEnoughBytes,
    })
}

/// Calls `rustbus::wire::unmarshal::unmarshal_header` on the start of `buf`.
#[verifier::external_body]
pub(crate) fn unmarshal_header(buf: &[u8]) -> (header: Result<Header, UnmarshalError>)
    ensures
        header == header_at_start(buf@),
{
    match rustbus::wire::unmarshal::unmarshal_header(buf, 0) {
        Ok((_, Raw { byteorder, typ, flags, version, body_len, serial })) => {
            let byteorder = match byteorder {
                RawOrder::LittleEndian => ByteOrder::LittleEndian, _ => ByteOrder::BigEndian,
            };
            let typ = match typ {
                RawType::Signal => MessageType::Signal, RawType::Error => MessageType::Error,
                RawType::Call => MessageType::Call, RawType::Reply => MessageType::Reply,
                RawType::Invalid => MessageType::Invalid, };
            Ok(Header { byteorder, typ, flags, version, body_len, serial }) },
        Err(RawError::InvalidByteOrder) => Err(UnmarshalError::InvalidByteOrder),
        Err(RawError::InvalidType) => Err(UnmarshalError::InvalidType),
        Err(_) => Err(UnmarshalError::NotEnoughBytes),
    }
}

} // verus!
