//! The traits of values that can stand in the body of a message, and their implementations
//! for the basic types. A program that has more types implements them for those.
use vstd::prelude::*;
use vstd::utf8::*;

use rustbus::wire::UnixFd;

use super::message_builder::header;
use super::path::{ObjectPath, ObjectPathBuf};
use super::wire_format;
use super::wire_format::{MarshalError, UnmarshalError};
use super::ByteOrder;

verus! {

/// A type with a D-Bus signature.
pub trait Signature {
    /// Whether this is the signature of the type. A type that does not say leaves it open.
    open spec fn is_sig(sig: Seq<char>) -> bool {
        true
    }

    /// Whether this is the alignment of its values. A type that does not say leaves it open.
    open spec fn is_align(align: int) -> bool {
        true
    }

    fn signature() -> (sig: String)
        ensures
            Self::is_sig(sig@),
    ;

    fn alignment() -> (align: usize)
        ensures
            Self::is_align(align as int),
            align > 0,
    ;
}

/// A type whose values can be written into a message.
///
/// An implementation writes the padding that its alignment asks for itself. What it may do to
/// the bytes and to the file descriptors of the message is for it to say.
pub trait Marshal: Signature {
    /// Whether writing the value takes the bytes `buf` and the descriptors `fds` to `buf_after`
    /// and `fds_after`, with the given result. A type that does not say leaves it open.
    open spec fn marshals(
        &self,
        order: ByteOrder,
        buf: Seq<u8>,
        fds: Seq<UnixFd>,
        buf_after: Seq<u8>,
        fds_after: Seq<UnixFd>,
        result: Result<(), MarshalError>,
    ) -> bool {
        true
    }

    fn marshal(&self, order: ByteOrder, buf: &mut Vec<u8>, fds: &mut Vec<UnixFd>) -> (result:
        Result<(), MarshalError>)
        ensures
            self.marshals(order, old(buf)@, old(fds)@, final(buf)@, final(fds)@, result),
    ;
}

/// Where in a message the next value is read.
#[derive(Clone, Copy)]
pub struct UnmarshalContext<'buf> {
    pub fds: &'buf [UnixFd],
    pub buf: &'buf [u8],
    pub byteorder: ByteOrder,
    pub offset: usize,
}

impl<'buf> UnmarshalContext<'buf> {
    /// Skips the padding before a value that is aligned to `alignment`. Returns its length.
    pub fn align_to(&mut self, alignment: usize) -> (padding: Result<usize, UnmarshalError>)
        requires
            alignment > 0,
            old(self).offset <= old(self).buf@.len(),
        ensures
            final(self).same_message(*old(self)),
            match padding {
                Ok(padding) => {
                    &&& wire_format::aligned_at(
                        old(self).buf@,
                        old(self).offset as int,
                        alignment as int,
                    ) == Ok::<int, UnmarshalError>(final(self).offset as int)
                    &&& final(self).offset == old(self).offset + padding
                    &&& final(self).offset <= final(self).buf@.len()
                },
                Err(error) => {
                    &&& wire_format::aligned_at(
                        old(self).buf@,
                        old(self).offset as int,
                        alignment as int,
                    ) == Err::<int, UnmarshalError>(error)
                    &&& final(self).offset == old(self).offset
                },
            },
    {
        match wire_format::align_offset(alignment, self.buf, self.offset) {
            Ok(padding) => {
                assert(self.buf@.len() == self.buf.len());
                self.offset = self.offset + padding;
                Ok(padding)
            },
            Err(error) => Err(error),
        }
    }

    /// The two contexts read the same message.
    pub open spec fn same_message(self, other: UnmarshalContext<'buf>) -> bool {
        self.fds == other.fds && self.buf == other.buf && self.byteorder == other.byteorder
    }
}

/// A type whose values can be read from a message.
pub trait Unmarshal<'buf>: Signature + Sized {
    /// Whether `result` is what the bytes at the context's offset hold. A type that does not say
    /// leaves it open.
    open spec fn unmarshals(
        ctx: UnmarshalContext<'buf>,
        result: Result<(usize, Self), UnmarshalError>,
    ) -> bool {
        true
    }

    /// Reads a value and moves the context behind it. Returns the number of bytes read, padding
    /// included, and the value.
    fn unmarshal(ctx: &mut UnmarshalContext<'buf>) -> (result: Result<
        (usize, Self),
        UnmarshalError,
    >)
        requires
            old(ctx).offset <= old(ctx).buf@.len(),
        ensures
            Self::unmarshals(*old(ctx), result),
            final(ctx).same_message(*old(ctx)),
            result matches Ok((size, _)) ==> {
                &&& final(ctx).offset == old(ctx).offset + size
                &&& final(ctx).offset <= final(ctx).buf@.len()
            },
    ;
}

/// The integer at `offset`, behind its padding, and where it ends.
pub open spec fn aligned_u32_at(buf: Seq<u8>, offset: int, order: ByteOrder) -> Result<
    (int, u32),
    UnmarshalError,
> {
    match wire_format::aligned_at(buf, offset, 4) {
        Ok(start) => wire_format::u32_at(buf, start, order),
        Err(error) => Err(error),
    }
}

/// The integer of eight bytes at `offset`, behind its padding, and where it ends.
pub open spec fn aligned_u64_at(buf: Seq<u8>, offset: int, order: ByteOrder) -> Result<
    (int, u64),
    UnmarshalError,
> {
    match wire_format::aligned_at(buf, offset, 8) {
        Ok(start) => wire_format::u64_at(buf, start, order),
        Err(error) => Err(error),
    }
}

/// The truth value at `offset`, behind its padding, and where it ends.
pub open spec fn aligned_bool_at(buf: Seq<u8>, offset: int, order: ByteOrder) -> Result<
    (int, bool),
    UnmarshalError,
> {
    match aligned_u32_at(buf, offset, order) {
        Ok((end, number)) => if number <= 1 {
            Ok((end, number == 1))
        } else {
            Err(UnmarshalError::InvalidBoolean)
        },
        Err(error) => Err(error),
    }
}

/// The text at `offset`, behind its padding, and where it ends.
pub open spec fn aligned_string_at(buf: Seq<u8>, offset: int, order: ByteOrder) -> Result<
    (int, Seq<char>),
    UnmarshalError,
> {
    match wire_format::aligned_at(buf, offset, 4) {
        Ok(start) => wire_format::string_at(buf, start, order),
        Err(error) => Err(error),
    }
}

impl Signature for u8 {
    open spec fn is_sig(sig: Seq<char>) -> bool {
        sig == seq!['y']
    }

    open spec fn is_align(align: int) -> bool {
        align == 1
    }

    fn signature() -> String {
        proof {
            reveal_strlit("y");
            assert("y"@ =~= seq!['y']);
        }
        "y".to_owned()
    }

    fn alignment() -> usize {
        1
    }
}

impl Marshal for u8 {
    open spec fn marshals(
        &self,
        order: ByteOrder,
        buf: Seq<u8>,
        fds: Seq<UnixFd>,
        buf_after: Seq<u8>,
        fds_after: Seq<UnixFd>,
        result: Result<(), MarshalError>,
    ) -> bool {
        &&& result is Ok
        &&& buf_after == buf.push(*self)
        &&& fds_after == fds
    }

    fn marshal(&self, order: ByteOrder, buf: &mut Vec<u8>, fds: &mut Vec<UnixFd>) -> Result<
        (),
        MarshalError,
    > {
        buf.push(*self);
        Ok(())
    }
}

impl<'buf> Unmarshal<'buf> for u8 {
    open spec fn unmarshals(
        ctx: UnmarshalContext<'buf>,
        result: Result<(usize, u8), UnmarshalError>,
    ) -> bool {
        if ctx.offset < ctx.buf@.len() {
            result == Ok::<(usize, u8), UnmarshalError>((1usize, ctx.buf@[ctx.offset as int]))
        } else {
            result == Err::<(usize, u8), UnmarshalError>(UnmarshalError::NotEnoughBytes)
        }
    }

    fn unmarshal(ctx: &mut UnmarshalContext<'buf>) -> Result<(usize, u8), UnmarshalError> {
        if ctx.offset >= ctx.buf.len() {
            return Err(UnmarshalError::NotEnoughBytes);
        }
        let value: u8 = ctx.buf[ctx.offset];
        ctx.offset = ctx.offset + 1;
        Ok((1, value))
    }
}

impl Signature for u32 {
    open spec fn is_sig(sig: Seq<char>) -> bool {
        sig == seq!['u']
    }

    open spec fn is_align(align: int) -> bool {
        align == 4
    }

    fn signature() -> String {
        proof {
            reveal_strlit("u");
            assert("u"@ =~= seq!['u']);
        }
        "u".to_owned()
    }

    fn alignment() -> usize {
        4
    }
}

impl Marshal for u32 {
    open spec fn marshals(
        &self,
        order: ByteOrder,
        buf: Seq<u8>,
        fds: Seq<UnixFd>,
        buf_after: Seq<u8>,
        fds_after: Seq<UnixFd>,
        result: Result<(), MarshalError>,
    ) -> bool {
        &&& result is Ok
        &&& buf_after == wire_format::padded(buf, 4) + crate::utils::u32_bytes(*self, order)
        &&& fds_after == fds
    }

    fn marshal(&self, order: ByteOrder, buf: &mut Vec<u8>, fds: &mut Vec<UnixFd>) -> Result<
        (),
        MarshalError,
    > {
        wire_format::pad_to_align(4, buf);
        wire_format::write_u32(*self, order, buf);
        Ok(())
    }
}

impl<'buf> Unmarshal<'buf> for u32 {
    open spec fn unmarshals(
        ctx: UnmarshalContext<'buf>,
        result: Result<(usize, u32), UnmarshalError>,
    ) -> bool {
        match result {
            Ok((size, value)) => aligned_u32_at(ctx.buf@, ctx.offset as int, ctx.byteorder) == Ok::<
                (int, u32),
                UnmarshalError,
            >((ctx.offset + size, value)),
            Err(error) => aligned_u32_at(ctx.buf@, ctx.offset as int, ctx.byteorder) == Err::<
                (int, u32),
                UnmarshalError,
            >(error),
        }
    }

    fn unmarshal(ctx: &mut UnmarshalContext<'buf>) -> Result<(usize, u32), UnmarshalError> {
        let padding: usize = match ctx.align_to(4) {
            Ok(padding) => padding,
            Err(error) => {
                return Err(error);
            },
        };
        match wire_format::read_u32(ctx.byteorder, ctx.buf, ctx.offset) {
            Ok(value) => {
                assert(ctx.buf@.len() == ctx.buf.len());
                ctx.offset = ctx.offset + 4;
                Ok((padding + 4, value))
            },
            Err(error) => Err(error),
        }
    }
}

impl Signature for u64 {
    open spec fn is_sig(sig: Seq<char>) -> bool {
        sig == seq!['t']
    }

    open spec fn is_align(align: int) -> bool {
        align == 8
    }

    fn signature() -> String {
        proof {
            reveal_strlit("t");
            assert("t"@ =~= seq!['t']);
        }
        "t".to_owned()
    }

    fn alignment() -> usize {
        8
    }
}

impl Marshal for u64 {
    open spec fn marshals(
        &self,
        order: ByteOrder,
        buf: Seq<u8>,
        fds: Seq<UnixFd>,
        buf_after: Seq<u8>,
        fds_after: Seq<UnixFd>,
        result: Result<(), MarshalError>,
    ) -> bool {
        &&& result is Ok
        &&& buf_after == wire_format::padded(buf, 8) + crate::utils::u64_bytes(*self, order)
        &&& fds_after == fds
    }

    fn marshal(&self, order: ByteOrder, buf: &mut Vec<u8>, fds: &mut Vec<UnixFd>) -> Result<
        (),
        MarshalError,
    > {
        wire_format::pad_to_align(8, buf);
        wire_format::write_u64(*self, order, buf);
        Ok(())
    }
}

impl<'buf> Unmarshal<'buf> for u64 {
    open spec fn unmarshals(
        ctx: UnmarshalContext<'buf>,
        result: Result<(usize, u64), UnmarshalError>,
    ) -> bool {
        match result {
            Ok((size, value)) => aligned_u64_at(ctx.buf@, ctx.offset as int, ctx.byteorder) == Ok::<
                (int, u64),
                UnmarshalError,
            >((ctx.offset + size, value)),
            Err(error) => aligned_u64_at(ctx.buf@, ctx.offset as int, ctx.byteorder) == Err::<
                (int, u64),
                UnmarshalError,
            >(error),
        }
    }

    fn unmarshal(ctx: &mut UnmarshalContext<'buf>) -> Result<(usize, u64), UnmarshalError> {
        let padding: usize = match ctx.align_to(8) {
            Ok(padding) => padding,
            Err(error) => {
                return Err(error);
            },
        };
        match wire_format::read_u64(ctx.byteorder, ctx.buf, ctx.offset) {
            Ok(value) => {
                assert(ctx.buf@.len() == ctx.buf.len());
                ctx.offset = ctx.offset + 8;
                Ok((padding + 8, value))
            },
            Err(error) => Err(error),
        }
    }
}

/// The number that a truth value is written as.
pub open spec fn bool_number(value: bool) -> u32 {
    if value {
        1
    } else {
        0
    }
}

impl Signature for bool {
    open spec fn is_sig(sig: Seq<char>) -> bool {
        sig == seq!['b']
    }

    open spec fn is_align(align: int) -> bool {
        align == 4
    }

    fn signature() -> String {
        proof {
            reveal_strlit("b");
            assert("b"@ =~= seq!['b']);
        }
        "b".to_owned()
    }

    fn alignment() -> usize {
        4
    }
}

impl Marshal for bool {
    open spec fn marshals(
        &self,
        order: ByteOrder,
        buf: Seq<u8>,
        fds: Seq<UnixFd>,
        buf_after: Seq<u8>,
        fds_after: Seq<UnixFd>,
        result: Result<(), MarshalError>,
    ) -> bool {
        bool_number(*self).marshals(order, buf, fds, buf_after, fds_after, result)
    }

    fn marshal(&self, order: ByteOrder, buf: &mut Vec<u8>, fds: &mut Vec<UnixFd>) -> Result<
        (),
        MarshalError,
    > {
        let number: u32 = if *self {
            1
        } else {
            0
        };
        number.marshal(order, buf, fds)
    }
}

impl<'buf> Unmarshal<'buf> for bool {
    open spec fn unmarshals(
        ctx: UnmarshalContext<'buf>,
        result: Result<(usize, bool), UnmarshalError>,
    ) -> bool {
        match result {
            Ok((size, value)) => aligned_bool_at(ctx.buf@, ctx.offset as int, ctx.byteorder)
                == Ok::<(int, bool), UnmarshalError>((ctx.offset + size, value)),
            Err(error) => aligned_bool_at(ctx.buf@, ctx.offset as int, ctx.byteorder) == Err::<
                (int, bool),
                UnmarshalError,
            >(error),
        }
    }

    fn unmarshal(ctx: &mut UnmarshalContext<'buf>) -> Result<(usize, bool), UnmarshalError> {
        match <u32 as Unmarshal>::unmarshal(ctx) {
            Ok((size, number)) => if number == 0 {
                Ok((size, false))
            } else if number == 1 {
                Ok((size, true))
            } else {
                Err(UnmarshalError::InvalidBoolean)
            },
            Err(error) => Err(error),
        }
    }
}

/// Writes text behind the padding that it needs.
fn marshal_text(s: &str, order: ByteOrder, buf: &mut Vec<u8>)
    ensures
        final(buf)@ == wire_format::padded(old(buf)@, 4) + wire_format::string_bytes(s@, order),
{
    wire_format::pad_to_align(4, buf);
    wire_format::write_string(s, order, buf);
}

impl<'a> Signature for &'a str {
    open spec fn is_sig(sig: Seq<char>) -> bool {
        sig == seq!['s']
    }

    open spec fn is_align(align: int) -> bool {
        align == 4
    }

    fn signature() -> String {
        proof {
            reveal_strlit("s");
            assert("s"@ =~= seq!['s']);
        }
        "s".to_owned()
    }

    fn alignment() -> usize {
        4
    }
}

impl<'a> Marshal for &'a str {
    open spec fn marshals(
        &self,
        order: ByteOrder,
        buf: Seq<u8>,
        fds: Seq<UnixFd>,
        buf_after: Seq<u8>,
        fds_after: Seq<UnixFd>,
        result: Result<(), MarshalError>,
    ) -> bool {
        &&& result is Ok
        &&& buf_after == wire_format::padded(buf, 4) + wire_format::string_bytes(self@, order)
        &&& fds_after == fds
    }

    fn marshal(&self, order: ByteOrder, buf: &mut Vec<u8>, fds: &mut Vec<UnixFd>) -> Result<
        (),
        MarshalError,
    > {
        marshal_text(*self, order, buf);
        Ok(())
    }
}

impl<'buf> Unmarshal<'buf> for &'buf str {
    open spec fn unmarshals(
        ctx: UnmarshalContext<'buf>,
        result: Result<(usize, &'buf str), UnmarshalError>,
    ) -> bool {
        match result {
            Ok((size, s)) => aligned_string_at(ctx.buf@, ctx.offset as int, ctx.byteorder) == Ok::<
                (int, Seq<char>),
                UnmarshalError,
            >((ctx.offset + size, s@)),
            Err(error) => aligned_string_at(ctx.buf@, ctx.offset as int, ctx.byteorder) == Err::<
                (int, Seq<char>),
                UnmarshalError,
            >(error),
        }
    }

    fn unmarshal(ctx: &mut UnmarshalContext<'buf>) -> Result<(usize, &'buf str), UnmarshalError> {
        let padding: usize = match ctx.align_to(4) {
            Ok(padding) => padding,
            Err(error) => {
                return Err(error);
            },
        };
        let length: u32 = match wire_format::read_u32(ctx.byteorder, ctx.buf, ctx.offset) {
            Ok(length) => length,
            Err(error) => {
                return Err(error);
            },
        };
        assert(ctx.buf@.len() == ctx.buf.len());
        if length as usize > usize::MAX - 5 {
            return Err(UnmarshalError::NotEnoughBytes);
        }
        match wire_format::unmarshal_str(ctx.byteorder, ctx.buf, ctx.offset) {
            Ok((size, s)) => {
                ctx.offset = ctx.offset + size;
                Ok((padding + size, s))
            },
            Err(error) => Err(error),
        }
    }
}

impl Signature for String {
    open spec fn is_sig(sig: Seq<char>) -> bool {
        sig == seq!['s']
    }

    open spec fn is_align(align: int) -> bool {
        align == 4
    }

    fn signature() -> String {
        <&str as Signature>::signature()
    }

    fn alignment() -> usize {
        4
    }
}

impl Marshal for String {
    open spec fn marshals(
        &self,
        order: ByteOrder,
        buf: Seq<u8>,
        fds: Seq<UnixFd>,
        buf_after: Seq<u8>,
        fds_after: Seq<UnixFd>,
        result: Result<(), MarshalError>,
    ) -> bool {
        &&& result is Ok
        &&& buf_after == wire_format::padded(buf, 4) + wire_format::string_bytes(self@, order)
        &&& fds_after == fds
    }

    fn marshal(&self, order: ByteOrder, buf: &mut Vec<u8>, fds: &mut Vec<UnixFd>) -> Result<
        (),
        MarshalError,
    > {
        marshal_text(self.as_str(), order, buf);
        Ok(())
    }
}

impl<'buf> Unmarshal<'buf> for String {
    open spec fn unmarshals(
        ctx: UnmarshalContext<'buf>,
        result: Result<(usize, String), UnmarshalError>,
    ) -> bool {
        match result {
            Ok((size, s)) => aligned_string_at(ctx.buf@, ctx.offset as int, ctx.byteorder) == Ok::<
                (int, Seq<char>),
                UnmarshalError,
            >((ctx.offset + size, s@)),
            Err(error) => aligned_string_at(ctx.buf@, ctx.offset as int, ctx.byteorder) == Err::<
                (int, Seq<char>),
                UnmarshalError,
            >(error),
        }
    }

    fn unmarshal(ctx: &mut UnmarshalContext<'buf>) -> Result<(usize, String), UnmarshalError> {
        match <&'buf str as Unmarshal>::unmarshal(ctx) {
            Ok((size, s)) => Ok((size, s.to_owned())),
            Err(error) => Err(error),
        }
    }
}

/// The object path at `offset`, behind its padding, and where it ends.
pub open spec fn object_path_at(buf: Seq<u8>, offset: int, order: ByteOrder) -> Result<
    (int, Seq<char>),
    UnmarshalError,
> {
    match aligned_string_at(buf, offset, order) {
        Ok((end, s)) => if super::path::valid_path(s) {
            Ok((end, s))
        } else {
            Err(UnmarshalError::InvalidType)
        },
        Err(error) => Err(error),
    }
}

impl<'a> Signature for ObjectPath<'a> {
    open spec fn is_sig(sig: Seq<char>) -> bool {
        sig == seq!['o']
    }

    open spec fn is_align(align: int) -> bool {
        align == 4
    }

    fn signature() -> String {
        proof {
            reveal_strlit("o");
            assert("o"@ =~= seq!['o']);
        }
        "o".to_owned()
    }

    fn alignment() -> usize {
        4
    }
}

impl<'a> Marshal for ObjectPath<'a> {
    open spec fn marshals(
        &self,
        order: ByteOrder,
        buf: Seq<u8>,
        fds: Seq<UnixFd>,
        buf_after: Seq<u8>,
        fds_after: Seq<UnixFd>,
        result: Result<(), MarshalError>,
    ) -> bool {
        &&& result is Ok
        &&& buf_after == wire_format::padded(buf, 4) + wire_format::string_bytes(self@, order)
        &&& fds_after == fds
    }

    fn marshal(&self, order: ByteOrder, buf: &mut Vec<u8>, fds: &mut Vec<UnixFd>) -> Result<
        (),
        MarshalError,
    > {
        marshal_text(self.as_str(), order, buf);
        Ok(())
    }
}

impl<'buf> Unmarshal<'buf> for ObjectPath<'buf> {
    open spec fn unmarshals(
        ctx: UnmarshalContext<'buf>,
        result: Result<(usize, ObjectPath<'buf>), UnmarshalError>,
    ) -> bool {
        match result {
            Ok((size, path)) => object_path_at(ctx.buf@, ctx.offset as int, ctx.byteorder) == Ok::<
                (int, Seq<char>),
                UnmarshalError,
            >((ctx.offset + size, path@)),
            Err(error) => object_path_at(ctx.buf@, ctx.offset as int, ctx.byteorder) == Err::<
                (int, Seq<char>),
                UnmarshalError,
            >(error),
        }
    }

    fn unmarshal(ctx: &mut UnmarshalContext<'buf>) -> Result<
        (usize, ObjectPath<'buf>),
        UnmarshalError,
    > {
        match <&'buf str as Unmarshal>::unmarshal(ctx) {
            Ok((size, s)) => match ObjectPath::new(s) {
                Ok(path) => Ok((size, path)),
                Err(_) => Err(UnmarshalError::InvalidType),
            },
            Err(error) => Err(error),
        }
    }
}

impl Signature for ObjectPathBuf {
    open spec fn is_sig(sig: Seq<char>) -> bool {
        sig == seq!['o']
    }

    open spec fn is_align(align: int) -> bool {
        align == 4
    }

    fn signature() -> String {
        <ObjectPath as Signature>::signature()
    }

    fn alignment() -> usize {
        4
    }
}

impl Marshal for ObjectPathBuf {
    open spec fn marshals(
        &self,
        order: ByteOrder,
        buf: Seq<u8>,
        fds: Seq<UnixFd>,
        buf_after: Seq<u8>,
        fds_after: Seq<UnixFd>,
        result: Result<(), MarshalError>,
    ) -> bool {
        &&& result is Ok
        &&& buf_after == wire_format::padded(buf, 4) + wire_format::string_bytes(self@, order)
        &&& fds_after == fds
    }

    fn marshal(&self, order: ByteOrder, buf: &mut Vec<u8>, fds: &mut Vec<UnixFd>) -> Result<
        (),
        MarshalError,
    > {
        marshal_text(self.as_object_path().as_str(), order, buf);
        Ok(())
    }
}

impl<'buf> Unmarshal<'buf> for ObjectPathBuf {
    open spec fn unmarshals(
        ctx: UnmarshalContext<'buf>,
        result: Result<(usize, ObjectPathBuf), UnmarshalError>,
    ) -> bool {
        match result {
            Ok((size, path)) => object_path_at(ctx.buf@, ctx.offset as int, ctx.byteorder) == Ok::<
                (int, Seq<char>),
                UnmarshalError,
            >((ctx.offset + size, path@)),
            Err(error) => object_path_at(ctx.buf@, ctx.offset as int, ctx.byteorder) == Err::<
                (int, Seq<char>),
                UnmarshalError,
            >(error),
        }
    }

    fn unmarshal(ctx: &mut UnmarshalContext<'buf>) -> Result<
        (usize, ObjectPathBuf),
        UnmarshalError,
    > {
        match <ObjectPath<'buf> as Unmarshal>::unmarshal(ctx) {
            Ok((size, path)) => Ok((size, path.to_object_path_buf())),
            Err(error) => Err(error),
        }
    }
}

/// The structure of two texts at `offset`, behind its padding, and where it ends.
pub open spec fn text_pair_at(buf: Seq<u8>, offset: int, order: ByteOrder) -> Result<
    (int, Seq<char>, Seq<char>),
    UnmarshalError,
> {
    match wire_format::aligned_at(buf, offset, 8) {
        Err(error) => Err(error),
        Ok(start) => match aligned_string_at(buf, start, order) {
            Err(error) => Err(error),
            Ok((middle, first)) => match aligned_string_at(buf, middle, order) {
                Err(error) => Err(error),
                Ok((end, second)) => Ok((end, first, second)),
            },
        },
    }
}

impl<'a> Signature for (&'a str, &'a str) {
    open spec fn is_sig(sig: Seq<char>) -> bool {
        sig == seq!['(', 's', 's', ')']
    }

    open spec fn is_align(align: int) -> bool {
        align == 8
    }

    fn signature() -> String {
        proof {
            reveal_strlit("(ss)");
            assert("(ss)"@ =~= seq!['(', 's', 's', ')']);
        }
        "(ss)".to_owned()
    }

    fn alignment() -> usize {
        8
    }
}

impl<'buf> Unmarshal<'buf> for (&'buf str, &'buf str) {
    open spec fn unmarshals(
        ctx: UnmarshalContext<'buf>,
        result: Result<(usize, (&'buf str, &'buf str)), UnmarshalError>,
    ) -> bool {
        match result {
            Ok((size, pair)) => text_pair_at(ctx.buf@, ctx.offset as int, ctx.byteorder) == Ok::<
                (int, Seq<char>, Seq<char>),
                UnmarshalError,
            >((ctx.offset + size, pair.0@, pair.1@)),
            Err(error) => text_pair_at(ctx.buf@, ctx.offset as int, ctx.byteorder) == Err::<
                (int, Seq<char>, Seq<char>),
                UnmarshalError,
            >(error),
        }
    }

    fn unmarshal(ctx: &mut UnmarshalContext<'buf>) -> Result<
        (usize, (&'buf str, &'buf str)),
        UnmarshalError,
    > {
        let start = ctx.offset;
        match ctx.align_to(8) {
            Ok(_) => {},
            Err(error) => {
                return Err(error);
            },
        }
        let first = match <&'buf str as Unmarshal<'buf>>::unmarshal(ctx) {
            Ok((_, s)) => s,
            Err(error) => {
                return Err(error);
            },
        };
        let second = match <&'buf str as Unmarshal<'buf>>::unmarshal(ctx) {
            Ok((_, s)) => s,
            Err(error) => {
                return Err(error);
            },
        };
        Ok((ctx.offset - start, (first, second)))
    }
}

// ---------------------------------------------------------------------------
// What values look like on the wire
// ---------------------------------------------------------------------------

/// The position `at` is the next multiple of `align` behind the bytes, and `after` is the bytes
/// with zero bytes up to there and something from there on.
pub open spec fn placed_at(buf: Seq<u8>, after: Seq<u8>, at: int, align: int) -> bool {
    &&& buf.len() <= at < buf.len() + align
    &&& at % align == 0
    &&& at <= after.len()
    &&& after.take(buf.len() as int) == buf
    &&& forall|i: int| buf.len() <= i < at ==> after[i] == 0
}

proof fn lemma_placed(buf: Seq<u8>, value: Seq<u8>, align: int)
    requires
        align > 0,
    ensures
        placed_at(
            buf,
            wire_format::padded(buf, align) + value,
            crate::utils::align_up(buf.len() as int, align),
            align,
        ),
        wire_format::padded(buf, align).len() == crate::utils::align_up(buf.len() as int, align),
{
    crate::utils::lemma_align_up(buf.len() as int, align);
    let after = wire_format::padded(buf, align) + value;
    assert(after.take(buf.len() as int) =~= buf);
}

/// A byte is written as it is.
pub proof fn law_u8_on_the_wire(
    value: u8,
    order: ByteOrder,
    buf: Seq<u8>,
    fds: Seq<UnixFd>,
    after: Seq<u8>,
    fds_after: Seq<UnixFd>,
    result: Result<(), MarshalError>,
)
    requires
        value.marshals(order, buf, fds, after, fds_after, result),
    ensures
        result is Ok,
        fds_after == fds,
        forall|sig: Seq<char>| #[trigger] <u8 as Signature>::is_sig(sig) <==> sig == "y"@,
        forall|n: int| #[trigger] <u8 as Signature>::is_align(n) <==> n == 1,
        after == buf + seq![value],
{
    reveal_strlit("y");
    assert("y"@ =~= seq!['y']);
    assert(buf.push(value) =~= buf + seq![value]);
}

/// A number of four bytes is written at the next multiple of four.
pub proof fn law_u32_on_the_wire(
    value: u32,
    order: ByteOrder,
    buf: Seq<u8>,
    fds: Seq<UnixFd>,
    after: Seq<u8>,
    fds_after: Seq<UnixFd>,
    result: Result<(), MarshalError>,
)
    requires
        value.marshals(order, buf, fds, after, fds_after, result),
    ensures
        result is Ok,
        fds_after == fds,
        forall|sig: Seq<char>| #[trigger] <u32 as Signature>::is_sig(sig) <==> sig == "u"@,
        forall|n: int| #[trigger] <u32 as Signature>::is_align(n) <==> n == 4,
        ({
            let at = after.len() - 4;
            &&& placed_at(buf, after, at, 4)
            &&& header::number_stands_at(after, at, value as int, order)
        }),
{
    reveal_strlit("u");
    assert("u"@ =~= seq!['u']);
    lemma_placed(buf, crate::utils::u32_bytes(value, order), 4);
    header::lemma_number_stands(wire_format::padded(buf, 4), value, seq![], order);
    assert(after =~= wire_format::padded(buf, 4) + crate::utils::u32_bytes(value, order) + seq![]);
}

/// A truth value is written as a number of four bytes: one if it is true, and zero if not.
pub proof fn law_bool_on_the_wire(
    value: bool,
    order: ByteOrder,
    buf: Seq<u8>,
    fds: Seq<UnixFd>,
    after: Seq<u8>,
    fds_after: Seq<UnixFd>,
    result: Result<(), MarshalError>,
)
    requires
        value.marshals(order, buf, fds, after, fds_after, result),
    ensures
        result is Ok,
        fds_after == fds,
        forall|sig: Seq<char>| #[trigger] <bool as Signature>::is_sig(sig) <==> sig == "b"@,
        forall|n: int| #[trigger] <bool as Signature>::is_align(n) <==> n == 4,
        ({
            let at = after.len() - 4;
            &&& placed_at(buf, after, at, 4)
            &&& value ==> header::number_stands_at(after, at, 1, order)
            &&& !value ==> header::number_stands_at(after, at, 0, order)
        }),
{
    reveal_strlit("b");
    assert("b"@ =~= seq!['b']);
    let number: u32 = if value {
        1
    } else {
        0
    };
    lemma_placed(buf, crate::utils::u32_bytes(number, order), 4);
    header::lemma_number_stands(wire_format::padded(buf, 4), number, seq![], order);
    assert(after =~= wire_format::padded(buf, 4) + crate::utils::u32_bytes(number, order) + seq![]);
}

/// A number of eight bytes is written at the next multiple of eight. In little endian order its
/// lower half comes first, and in big endian order its upper half.
pub proof fn law_u64_on_the_wire(
    value: u64,
    order: ByteOrder,
    buf: Seq<u8>,
    fds: Seq<UnixFd>,
    after: Seq<u8>,
    fds_after: Seq<UnixFd>,
    result: Result<(), MarshalError>,
)
    requires
        value.marshals(order, buf, fds, after, fds_after, result),
    ensures
        result is Ok,
        fds_after == fds,
        forall|sig: Seq<char>| #[trigger] <u64 as Signature>::is_sig(sig) <==> sig == "t"@,
        forall|n: int| #[trigger] <u64 as Signature>::is_align(n) <==> n == 8,
        ({
            let at = after.len() - 8;
            let low = value as int % 0x1_0000_0000;
            let high = value as int / 0x1_0000_0000;
            &&& placed_at(buf, after, at, 8)
            &&& order is LittleEndian ==> header::number_stands_at(after, at, low, order)
                && header::number_stands_at(after, at + 4, high, order)
            &&& order is BigEndian ==> header::number_stands_at(after, at, high, order)
                && header::number_stands_at(after, at + 4, low, order)
        }),
{
    reveal_strlit("t");
    assert("t"@ =~= seq!['t']);
    lemma_placed(buf, crate::utils::u64_bytes(value, order), 8);
    let start = wire_format::padded(buf, 8);
    let low = (value % 0x1_0000_0000) as u32;
    let high = (value / 0x1_0000_0000) as u32;
    let (first, second) = match order {
        ByteOrder::LittleEndian => (low, high),
        ByteOrder::BigEndian => (high, low),
    };
    let one = crate::utils::u32_bytes(first, order);
    let two = crate::utils::u32_bytes(second, order);
    header::lemma_number_stands(start, first, two, order);
    header::lemma_number_stands(start + one, second, seq![], order);
    assert(after =~= start + one + two);
    assert(after =~= (start + one) + two + seq![]);
}

/// Text is written at the next multiple of four, with its length before it and a zero byte
/// behind it.
pub proof fn law_str_on_the_wire<'a>(
    value: &'a str,
    order: ByteOrder,
    buf: Seq<u8>,
    fds: Seq<UnixFd>,
    after: Seq<u8>,
    fds_after: Seq<UnixFd>,
    result: Result<(), MarshalError>,
)
    requires
        value.marshals(order, buf, fds, after, fds_after, result),
        encode_utf8(value@).len() <= u32::MAX,
    ensures
        result is Ok,
        fds_after == fds,
        forall|sig: Seq<char>| #[trigger] <&'a str as Signature>::is_sig(sig) <==> sig == "s"@,
        forall|n: int| #[trigger] <&'a str as Signature>::is_align(n) <==> n == 4,
        ({
            let at = after.len() - 5 - encode_utf8(value@).len();
            &&& placed_at(buf, after, at, 4)
            &&& header::text_stands_at(after, at, value@, order)
        }),
{
    reveal_strlit("s");
    assert("s"@ =~= seq!['s']);
    lemma_placed(buf, wire_format::string_bytes(value@, order), 4);
    header::lemma_text_stands(wire_format::padded(buf, 4), value@, order);
}

/// Text is written at the next multiple of four, with its length before it and a zero byte
/// behind it.
pub proof fn law_string_on_the_wire(
    value: String,
    order: ByteOrder,
    buf: Seq<u8>,
    fds: Seq<UnixFd>,
    after: Seq<u8>,
    fds_after: Seq<UnixFd>,
    result: Result<(), MarshalError>,
)
    requires
        value.marshals(order, buf, fds, after, fds_after, result),
        encode_utf8(value@).len() <= u32::MAX,
    ensures
        result is Ok,
        fds_after == fds,
        forall|sig: Seq<char>| #[trigger] <String as Signature>::is_sig(sig) <==> sig == "s"@,
        forall|n: int| #[trigger] <String as Signature>::is_align(n) <==> n == 4,
        ({
            let at = after.len() - 5 - encode_utf8(value@).len();
            &&& placed_at(buf, after, at, 4)
            &&& header::text_stands_at(after, at, value@, order)
        }),
{
    reveal_strlit("s");
    assert("s"@ =~= seq!['s']);
    lemma_placed(buf, wire_format::string_bytes(value@, order), 4);
    header::lemma_text_stands(wire_format::padded(buf, 4), value@, order);
}

/// An object path is written like text, under a type of its own.
pub proof fn law_object_path_on_the_wire<'a>(
    value: ObjectPath<'a>,
    order: ByteOrder,
    buf: Seq<u8>,
    fds: Seq<UnixFd>,
    after: Seq<u8>,
    fds_after: Seq<UnixFd>,
    result: Result<(), MarshalError>,
)
    requires
        value.marshals(order, buf, fds, after, fds_after, result),
        encode_utf8(value@).len() <= u32::MAX,
    ensures
        result is Ok,
        fds_after == fds,
        forall|sig: Seq<char>| #[trigger] <ObjectPath<'a> as Signature>::is_sig(sig) <==> sig == "o"@,
        forall|n: int| #[trigger] <ObjectPath<'a> as Signature>::is_align(n) <==> n == 4,
        ({
            let at = after.len() - 5 - encode_utf8(value@).len();
            &&& placed_at(buf, after, at, 4)
            &&& header::text_stands_at(after, at, value@, order)
        }),
{
    reveal_strlit("o");
    assert("o"@ =~= seq!['o']);
    lemma_placed(buf, wire_format::string_bytes(value@, order), 4);
    header::lemma_text_stands(wire_format::padded(buf, 4), value@, order);
}

/// An object path is written like text, under a type of its own.
pub proof fn law_object_path_buf_on_the_wire(
    value: ObjectPathBuf,
    order: ByteOrder,
    buf: Seq<u8>,
    fds: Seq<UnixFd>,
    after: Seq<u8>,
    fds_after: Seq<UnixFd>,
    result: Result<(), MarshalError>,
)
    requires
        value.marshals(order, buf, fds, after, fds_after, result),
        encode_utf8(value@).len() <= u32::MAX,
    ensures
        result is Ok,
        fds_after == fds,
        forall|sig: Seq<char>| #[trigger] <ObjectPathBuf as Signature>::is_sig(sig) <==> sig == "o"@,
        forall|n: int| #[trigger] <ObjectPathBuf as Signature>::is_align(n) <==> n == 4,
        ({
            let at = after.len() - 5 - encode_utf8(value@).len();
            &&& placed_at(buf, after, at, 4)
            &&& header::text_stands_at(after, at, value@, order)
        }),
{
    reveal_strlit("o");
    assert("o"@ =~= seq!['o']);
    lemma_placed(buf, wire_format::string_bytes(value@, order), 4);
    header::lemma_text_stands(wire_format::padded(buf, 4), value@, order);
}

/// The bytes from `from` up to `to` are zero, and `to` is the next multiple of `align`.
pub open spec fn padding_ends_at(buf: Seq<u8>, from: int, to: int, align: int) -> bool {
    &&& from <= to < from + align
    &&& to % align == 0
    &&& to <= buf.len()
    &&& forall|i: int| from <= i < to ==> buf[i] == 0
}

/// A number that is read stands in the last of the bytes that were read, and only zero bytes
/// stand before it up to the offset.
pub proof fn law_u32_is_what_stands_there<'b>(
    ctx: UnmarshalContext<'b>,
    size: usize,
    value: u32,
)
    requires
        <u32 as Unmarshal<'b>>::unmarshals(ctx, Ok((size, value))),
    ensures
        ({
            let end = ctx.offset + size;
            &&& end <= ctx.buf@.len()
            &&& padding_ends_at(ctx.buf@, ctx.offset as int, end - 4, 4)
            &&& header::number_stands_at(ctx.buf@, end - 4, value as int, ctx.byteorder)
        }),
{
    lemma_u32_stands(ctx.buf@, ctx.offset as int, ctx.byteorder);
}

proof fn lemma_u32_stands(buf: Seq<u8>, offset: int, order: ByteOrder)
    requires
        0 <= offset,
    ensures
        aligned_u32_at(buf, offset, order) matches Ok((end, value)) ==> {
            &&& end <= buf.len()
            &&& padding_ends_at(buf, offset, end - 4, 4)
            &&& header::number_stands_at(buf, end - 4, value as int, order)
        },
{
    crate::utils::lemma_align_up(offset, 4);
    if let Ok((end, value)) = aligned_u32_at(buf, offset, order) {
        lemma_value_stands(buf, end - 4, order);
    }
}

/// A truth value that is read is true if the number that stands there is one, and false if it is
/// zero.
pub proof fn law_bool_is_what_stands_there<'b>(
    ctx: UnmarshalContext<'b>,
    size: usize,
    value: bool,
)
    requires
        <bool as Unmarshal<'b>>::unmarshals(ctx, Ok((size, value))),
    ensures
        ({
            let end = ctx.offset + size;
            &&& padding_ends_at(ctx.buf@, ctx.offset as int, end - 4, 4)
            &&& value ==> header::number_stands_at(ctx.buf@, end - 4, 1, ctx.byteorder)
            &&& !value ==> header::number_stands_at(ctx.buf@, end - 4, 0, ctx.byteorder)
        }),
{
    lemma_u32_stands(ctx.buf@, ctx.offset as int, ctx.byteorder);
}

/// A number of eight bytes that is read stands in the last of the bytes that were read.
#[verifier::spinoff_prover]
pub proof fn law_u64_is_what_stands_there<'b>(
    ctx: UnmarshalContext<'b>,
    size: usize,
    value: u64,
)
    requires
        <u64 as Unmarshal<'b>>::unmarshals(ctx, Ok((size, value))),
    ensures
        ({
            let end = ctx.offset + size;
            let low = value as int % 0x1_0000_0000;
            let high = value as int / 0x1_0000_0000;
            &&& padding_ends_at(ctx.buf@, ctx.offset as int, end - 8, 8)
            &&& ctx.byteorder is LittleEndian ==> header::number_stands_at(
                ctx.buf@,
                end - 8,
                low,
                ctx.byteorder,
            ) && header::number_stands_at(ctx.buf@, end - 4, high, ctx.byteorder)
            &&& ctx.byteorder is BigEndian ==> header::number_stands_at(
                ctx.buf@,
                end - 8,
                high,
                ctx.byteorder,
            ) && header::number_stands_at(ctx.buf@, end - 4, low, ctx.byteorder)
        }),
{
    let buf = ctx.buf@;
    crate::utils::lemma_align_up(ctx.offset as int, 8);
    let end = ctx.offset + size;
    let all = buf.subrange(end - 8, end);
    assert(all.subrange(0, 4) =~= buf.subrange(end - 8, end - 4));
    assert(all.subrange(4, 8) =~= buf.subrange(end - 4, end));
    let a = crate::utils::u32_value(all.subrange(0, 4), ctx.byteorder);
    let b = crate::utils::u32_value(all.subrange(4, 8), ctx.byteorder);
    lemma_value_stands(buf, end - 8, ctx.byteorder);
    lemma_value_stands(buf, end - 4, ctx.byteorder);
    match ctx.byteorder {
        ByteOrder::LittleEndian => {
            lemma_halves(a, b);
        },
        ByteOrder::BigEndian => {
            lemma_halves(b, a);
        },
    }
}

pub(crate) proof fn lemma_value_stands(buf: Seq<u8>, at: int, order: ByteOrder)
    requires
        0 <= at,
        at + 4 <= buf.len(),
    ensures
        ({
            let number = crate::utils::u32_value(buf.subrange(at, at + 4), order);
            header::number_stands_at(buf, at, number, order) && 0 <= number < 0x1_0000_0000
        }),
{
    let part = buf.subrange(at, at + 4);
    assert(part[0] == buf[at]);
    assert(part[1] == buf[at + 1]);
    assert(part[2] == buf[at + 2]);
    assert(part[3] == buf[at + 3]);
}

proof fn lemma_halves(low: int, high: int)
    requires
        0 <= low < 0x1_0000_0000,
        0 <= high < 0x1_0000_0000,
    ensures
        0 <= low + 0x1_0000_0000 * high <= u64::MAX,
        (low + 0x1_0000_0000 * high) % 0x1_0000_0000 == low,
        (low + 0x1_0000_0000 * high) / 0x1_0000_0000 == high,
{
}

/// Text that is read stands behind its length, at a multiple of four.
pub proof fn law_str_is_what_stands_there<'b>(
    ctx: UnmarshalContext<'b>,
    size: usize,
    value: &'b str,
)
    requires
        <&'b str as Unmarshal<'b>>::unmarshals(ctx, Ok((size, value))),
    ensures
        text_read(ctx.buf@, ctx.offset as int, ctx.offset + size, value@, ctx.byteorder),
{
    lemma_text_stands_there(ctx.buf@, ctx.offset as int, ctx.byteorder);
}

/// The bytes from `from` up to `to` are the text, behind its length, which stands at a multiple
/// of four, and before one more byte.
pub open spec fn text_read(
    buf: Seq<u8>,
    from: int,
    to: int,
    value: Seq<char>,
    order: ByteOrder,
) -> bool {
    let length = encode_utf8(value).len();
    &&& to <= buf.len()
    &&& padding_ends_at(buf, from, to - 5 - length, 4)
    &&& header::number_stands_at(buf, to - 5 - length, length as int, order)
    &&& buf.subrange(to - 1 - length, to - 1) == encode_utf8(value)
    &&& !value.contains('\0')
}

proof fn lemma_text_stands_there(buf: Seq<u8>, offset: int, order: ByteOrder)
    requires
        0 <= offset,
    ensures
        aligned_string_at(buf, offset, order) matches Ok((end, value)) ==> text_read(
            buf,
            offset,
            end,
            value,
            order,
        ),
{
    crate::utils::lemma_align_up(offset, 4);
    lemma_u32_stands(buf, offset, order);
    if let Ok((end, value)) = aligned_string_at(buf, offset, order) {
        if let Ok((start, length)) = aligned_u32_at(buf, offset, order) {
            let bytes = buf.subrange(start, start + length);
            vstd::utf8::decode_utf8_encode_utf8(bytes);
            assert(encode_utf8(value) == bytes);
        }
    }
}

/// Owned text is read like borrowed text.
pub proof fn law_string_is_what_stands_there<'b>(
    ctx: UnmarshalContext<'b>,
    size: usize,
    value: String,
)
    requires
        <String as Unmarshal<'b>>::unmarshals(ctx, Ok((size, value))),
    ensures
        text_read(ctx.buf@, ctx.offset as int, ctx.offset + size, value@, ctx.byteorder),
{
    lemma_text_stands_there(ctx.buf@, ctx.offset as int, ctx.byteorder);
}

/// An object path that is read is the text that stands there, which obeys the rules of paths.
pub proof fn law_object_path_is_what_stands_there<'b>(
    ctx: UnmarshalContext<'b>,
    size: usize,
    value: ObjectPath<'b>,
)
    requires
        <ObjectPath<'b> as Unmarshal<'b>>::unmarshals(ctx, Ok((size, value))),
    ensures
        text_read(ctx.buf@, ctx.offset as int, ctx.offset + size, value@, ctx.byteorder),
        super::path::valid_path(value@),
{
    lemma_text_stands_there(ctx.buf@, ctx.offset as int, ctx.byteorder);
}

/// An owned object path is read like a borrowed one.
pub proof fn law_object_path_buf_is_what_stands_there<'b>(
    ctx: UnmarshalContext<'b>,
    size: usize,
    value: ObjectPathBuf,
)
    requires
        <ObjectPathBuf as Unmarshal<'b>>::unmarshals(ctx, Ok((size, value))),
    ensures
        text_read(ctx.buf@, ctx.offset as int, ctx.offset + size, value@, ctx.byteorder),
        super::path::valid_path(value@),
{
    lemma_text_stands_there(ctx.buf@, ctx.offset as int, ctx.byteorder);
}

/// A byte that is read is the one at the offset.
pub proof fn law_u8_is_what_stands_there<'b>(ctx: UnmarshalContext<'b>, size: usize, value: u8)
    requires
        <u8 as Unmarshal<'b>>::unmarshals(ctx, Ok((size, value))),
    ensures
        size == 1,
        ctx.offset < ctx.buf@.len(),
        value == ctx.buf@[ctx.offset as int],
{
}

/// A structure of two texts that is read starts at a multiple of eight, and the texts stand one
/// behind the other.
pub proof fn law_text_pair_is_what_stands_there<'b>(
    ctx: UnmarshalContext<'b>,
    size: usize,
    value: (&'b str, &'b str),
)
    requires
        <(&'b str, &'b str) as Unmarshal<'b>>::unmarshals(ctx, Ok((size, value))),
    ensures
        exists|middle: int|
            {
                let start = crate::utils::align_up(ctx.offset as int, 8);
                &&& padding_ends_at(ctx.buf@, ctx.offset as int, start, 8)
                &&& text_read(ctx.buf@, start, middle, value.0@, ctx.byteorder)
                &&& #[trigger] text_read(
                    ctx.buf@,
                    middle,
                    ctx.offset + size,
                    value.1@,
                    ctx.byteorder,
                )
            },
        forall|sig: Seq<char>| #[trigger]
            <(&'b str, &'b str) as Signature>::is_sig(sig) <==> sig == "(ss)"@,
{
    reveal_strlit("(ss)");
    assert("(ss)"@ =~= seq!['(', 's', 's', ')']);
    let buf = ctx.buf@;
    let order = ctx.byteorder;
    crate::utils::lemma_align_up(ctx.offset as int, 8);
    let start = crate::utils::align_up(ctx.offset as int, 8);
    lemma_text_stands_there(buf, start, order);
    if let Ok((middle, first)) = aligned_string_at(buf, start, order) {
        lemma_text_stands_there(buf, middle, order);
        assert(text_read(buf, middle, ctx.offset + size, value.1@, order));
    }
}

/// A number other than zero and one is no truth value, and text that breaks the rules of paths is
/// no object path.
pub proof fn law_other_values_are_refused<'b>(
    ctx: UnmarshalContext<'b>,
    end: int,
    truth: Result<(usize, bool), UnmarshalError>,
    path: Result<(usize, ObjectPath<'b>), UnmarshalError>,
    number: u32,
    s: Seq<char>,
)
    requires
        <bool as Unmarshal<'b>>::unmarshals(ctx, truth),
        <ObjectPath<'b> as Unmarshal<'b>>::unmarshals(ctx, path),
    ensures
        number > 1 && aligned_u32_at(ctx.buf@, ctx.offset as int, ctx.byteorder) == Ok::<
            (int, u32),
            UnmarshalError,
        >((end, number)) ==> truth == Err::<(usize, bool), UnmarshalError>(
            UnmarshalError::InvalidBoolean,
        ),
        !super::path::valid_path(s) && aligned_string_at(
            ctx.buf@,
            ctx.offset as int,
            ctx.byteorder,
        ) == Ok::<(int, Seq<char>), UnmarshalError>((end, s)) ==> path == Err::<
            (usize, ObjectPath<'b>),
            UnmarshalError,
        >(UnmarshalError::InvalidType),
{
}

} // verus!
