//! The values of header fields.
use vstd::prelude::*;

use crate::rustbus_core::marshal;
use crate::rustbus_core::marshal::{Marshal, Signature, Unmarshal, UnmarshalContext};
use crate::rustbus_core::nesting;
use crate::rustbus_core::path::ObjectPath;
use crate::rustbus_core::wire_format;
use crate::rustbus_core::wire_format::{
    MarshalError, SignatureError, UnmarshalError, ValidationError,
};
use crate::rustbus_core::ByteOrder;
use crate::text;
use rustbus::wire::UnixFd;

verus! {

/// Text that stands for a signature.
#[derive(Clone, Copy, Debug)]
pub struct SigStr<'a> {
    inner: &'a str,
}

impl<'a> View for SigStr<'a> {
    type V = Seq<char>;

    closed spec fn view(&self) -> Seq<char> {
        self.inner@
    }
}

impl<'a> SigStr<'a> {
    /// Checks that `sig` is a signature.
    pub fn new(sig: &'a str) -> (result: Result<SigStr<'a>, SignatureError>)
        ensures
            match result {
                Ok(checked) => checked@ == sig@ && wire_format::parsed_signature(sig@) is Ok,
                Err(error) => wire_format::parsed_signature(sig@) == Err::<
                    Seq<Seq<char>>,
                    SignatureError,
                >(error),
            },
    {
        match wire_format::parse_signature(sig) {
            Ok(_) => Ok(SigStr { inner: sig }),
            Err(error) => Err(error),
        }
    }

    /// Takes `sig` for a signature without a check.
    pub(crate) fn new_no_val(sig: &'a str) -> (result: SigStr<'a>)
        ensures
            result@ == sig@,
    {
        SigStr { inner: sig }
    }

    pub fn as_str(&self) -> (sig: &'a str)
        ensures
            sig@ == self@,
    {
        self.inner
    }
}

/// The signature at `offset`, which has to be an accepted one, and where it ends.
pub open spec fn checked_signature_at(buf: Seq<u8>, offset: int) -> Result<
    (int, Seq<char>),
    UnmarshalError,
> {
    match wire_format::signature_at(buf, offset) {
        Ok((end, sig)) => match wire_format::parsed_signature(sig) {
            Ok(_) => Ok((end, sig)),
            Err(error) => Err(UnmarshalError::Validation(ValidationError::InvalidSignature(error))),
        },
        Err(error) => Err(error),
    }
}

impl<'a> Signature for SigStr<'a> {
    open spec fn is_sig(sig: Seq<char>) -> bool {
        sig == seq!['g']
    }

    open spec fn is_align(align: int) -> bool {
        align == 1
    }

    fn signature() -> String {
        proof {
            reveal_strlit("g");
            assert("g"@ =~= seq!['g']);
        }
        "g".to_owned()
    }

    fn alignment() -> usize {
        1
    }
}

impl<'a> Marshal for SigStr<'a> {
    open spec fn marshals(
        &self,
        order: ByteOrder,
        buf: Seq<u8>,
        fds: Seq<UnixFd>,
        buf_after: Seq<u8>,
        fds_after: Seq<UnixFd>,
        result: Result<(), MarshalError>,
    ) -> bool {
        &&& result is Ok
        &&& buf_after == buf + wire_format::signature_bytes(self@)
        &&& fds_after == fds
    }

    fn marshal(&self, order: ByteOrder, buf: &mut Vec<u8>, fds: &mut Vec<UnixFd>) -> Result<
        (),
        MarshalError,
    > {
        wire_format::write_signature(self.inner, buf);
        Ok(())
    }
}

impl<'buf> Unmarshal<'buf> for SigStr<'buf> {
    open spec fn unmarshals(
        ctx: UnmarshalContext<'buf>,
        result: Result<(usize, SigStr<'buf>), UnmarshalError>,
    ) -> bool {
        match result {
            Ok((size, sig)) => checked_signature_at(ctx.buf@, ctx.offset as int) == Ok::<
                (int, Seq<char>),
                UnmarshalError,
            >((ctx.offset + size, sig@)),
            Err(error) => checked_signature_at(ctx.buf@, ctx.offset as int) == Err::<
                (int, Seq<char>),
                UnmarshalError,
            >(error),
        }
    }

    fn unmarshal(ctx: &mut UnmarshalContext<'buf>) -> Result<
        (usize, SigStr<'buf>),
        UnmarshalError,
    > {
        match wire_format::unmarshal_signature(ctx.buf, ctx.offset) {
            Ok((size, sig)) => {
                assert(ctx.buf@.len() == ctx.buf.len());
                ctx.offset = ctx.offset + size;
                match SigStr::new(sig) {
                    Ok(sig) => Ok((size, sig)),
                    Err(error) => Err(
                        UnmarshalError::Validation(ValidationError::InvalidSignature(error)),
                    ),
                }
            },
            Err(error) => Err(error),
        }
    }
}

/// The value of a header field.
#[derive(Clone, Copy, Debug)]
pub enum HdrVar<'buf> {
    Path(ObjectPath<'buf>),
    Str(&'buf str),
    U32(u32),
    Sig(SigStr<'buf>),
    /// A value of another type, which no known field has.
    Catchall,
}

/// What the value of a header field holds.
#[verifier::ext_equal]
pub enum FieldValue {
    Path(Seq<char>),
    Text(Seq<char>),
    Number(u32),
    Signature(Seq<char>),
    Other,
}

impl<'buf> View for HdrVar<'buf> {
    type V = FieldValue;

    open spec fn view(&self) -> FieldValue {
        match self {
            HdrVar::Path(path) => FieldValue::Path(path@),
            HdrVar::Str(s) => FieldValue::Text(s@),
            HdrVar::U32(number) => FieldValue::Number(*number),
            HdrVar::Sig(sig) => FieldValue::Signature(sig@),
            HdrVar::Catchall => FieldValue::Other,
        }
    }
}

/// `buf` with the value of a field written behind it: a variant, that is the signature of the
/// value and then the value.
pub open spec fn with_value(buf: Seq<u8>, value: FieldValue, order: ByteOrder) -> Seq<u8> {
    match value {
        FieldValue::Path(s) => wire_format::padded(buf + wire_format::signature_bytes(seq!['o']), 4)
            + wire_format::string_bytes(s, order),
        FieldValue::Text(s) => wire_format::padded(buf + wire_format::signature_bytes(seq!['s']), 4)
            + wire_format::string_bytes(s, order),
        FieldValue::Number(n) => wire_format::padded(
            buf + wire_format::signature_bytes(seq!['u']),
            4,
        ) + crate::utils::u32_bytes(n, order),
        FieldValue::Signature(s) => buf + wire_format::signature_bytes(seq!['g'])
            + wire_format::signature_bytes(s),
        FieldValue::Other => buf,
    }
}

/// The variant at `offset`, and where it ends.
pub open spec fn value_at(buf: Seq<u8>, offset: int, order: ByteOrder) -> Result<
    (int, FieldValue),
    UnmarshalError,
> {
    match wire_format::signature_at(buf, offset) {
        Err(error) => Err(error),
        Ok((start, sig)) => if sig == seq!['o'] {
            match marshal::object_path_at(buf, start, order) {
                Ok((end, s)) => Ok((end, FieldValue::Path(s))),
                Err(error) => Err(error),
            }
        } else if sig == seq!['s'] {
            match marshal::aligned_string_at(buf, start, order) {
                Ok((end, s)) => Ok((end, FieldValue::Text(s))),
                Err(error) => Err(error),
            }
        } else if sig == seq!['u'] {
            match marshal::aligned_u32_at(buf, start, order) {
                Ok((end, n)) => Ok((end, FieldValue::Number(n))),
                Err(error) => Err(error),
            }
        } else if sig == seq!['g'] {
            match checked_signature_at(buf, start) {
                Ok((end, s)) => Ok((end, FieldValue::Signature(s))),
                Err(error) => Err(error),
            }
        } else {
            match wire_format::parsed_signature(sig) {
                Ok(types) => if types.len() != 1 {
                    Err(UnmarshalError::WrongSignature)
                } else {
                    match nesting::depth_error(order, buf, start, types[0]) {
                        Some(error) => Err(error),
                        None => match wire_format::value_size(
                            order is LittleEndian,
                            start,
                            buf,
                            sig,
                            0,
                        ) {
                            Ok(size) => Ok((start + size, FieldValue::Other)),
                            Err(error) => Err(UnmarshalError::Value(error)),
                        },
                    }
                },
                Err(_) => Err(UnmarshalError::WrongSignature),
            }
        },
    }
}

impl<'buf> HdrVar<'buf> {
    /// Writes the value as a variant.
    pub(crate) fn marshal(&self, order: ByteOrder, buf: &mut Vec<u8>)
        requires
            !(self@ is Other),
        ensures
            final(buf)@ == with_value(old(buf)@, self@, order),
    {
        proof {
            lemma_signature_literals();
        }
        match self {
            HdrVar::Path(path) => {
                wire_format::write_signature("o", buf);
                wire_format::pad_to_align(4, buf);
                wire_format::write_string(path.as_str(), order, buf);
            },
            HdrVar::Str(s) => {
                wire_format::write_signature("s", buf);
                wire_format::pad_to_align(4, buf);
                wire_format::write_string(s, order, buf);
            },
            HdrVar::U32(number) => {
                wire_format::write_signature("u", buf);
                wire_format::pad_to_align(4, buf);
                wire_format::write_u32(*number, order, buf);
            },
            HdrVar::Sig(sig) => {
                wire_format::write_signature("g", buf);
                wire_format::write_signature(sig.as_str(), buf);
            },
            HdrVar::Catchall => {},
        }
    }

    /// Reads a variant and moves the context behind it. Returns the number of bytes read and
    /// the value.
    pub(crate) fn unmarshal(ctx: &mut UnmarshalContext<'buf>) -> (result: Result<
        (usize, HdrVar<'buf>),
        UnmarshalError,
    >)
        requires
            old(ctx).offset <= old(ctx).buf@.len(),
        ensures
            final(ctx).same_message(*old(ctx)),
            match result {
                Ok((size, value)) => {
                    &&& value_at(old(ctx).buf@, old(ctx).offset as int, old(ctx).byteorder) == Ok::<
                        (int, FieldValue),
                        UnmarshalError,
                    >((final(ctx).offset as int, value@))
                    &&& final(ctx).offset == old(ctx).offset + size
                    &&& final(ctx).offset <= final(ctx).buf@.len()
                },
                Err(error) => value_at(
                    old(ctx).buf@,
                    old(ctx).offset as int,
                    old(ctx).byteorder,
                ) == Err::<(int, FieldValue), UnmarshalError>(error),
            },
    {
        proof {
            lemma_signature_literals();
        }
        let (sig_size, sig): (usize, &str) = match wire_format::unmarshal_signature(
            ctx.buf,
            ctx.offset,
        ) {
            Ok(read) => read,
            Err(error) => {
                return Err(error);
            },
        };
        assert(ctx.buf@.len() == ctx.buf.len());
        ctx.offset = ctx.offset + sig_size;
        if text::str_eq(sig, "o") {
            match <ObjectPath<'buf> as Unmarshal>::unmarshal(ctx) {
                Ok((size, path)) => Ok((sig_size + size, HdrVar::Path(path))),
                Err(error) => Err(error),
            }
        } else if text::str_eq(sig, "s") {
            match <&'buf str as Unmarshal>::unmarshal(ctx) {
                Ok((size, s)) => Ok((sig_size + size, HdrVar::Str(s))),
                Err(error) => Err(error),
            }
        } else if text::str_eq(sig, "u") {
            match <u32 as Unmarshal>::unmarshal(ctx) {
                Ok((size, number)) => Ok((sig_size + size, HdrVar::U32(number))),
                Err(error) => Err(error),
            }
        } else if text::str_eq(sig, "g") {
            match <SigStr<'buf> as Unmarshal>::unmarshal(ctx) {
                Ok((size, sig)) => Ok((sig_size + size, HdrVar::Sig(sig))),
                Err(error) => Err(error),
            }
        } else {
            let types = match wire_format::parse_signature(sig) {
                Ok(types) => types,
                Err(_) => {
                    return Err(UnmarshalError::WrongSignature);
                },
            };
            if types.len() != 1 {
                return Err(UnmarshalError::WrongSignature);
            }
            assert(types@.map_values(|t: String| t@)[0] == types@[0]@);
            match nesting::check_depth(ctx.byteorder, ctx.buf, ctx.offset, types[0].as_str()) {
                Ok(()) => {},
                Err(error) => {
                    return Err(error);
                },
            }
            match wire_format::validate_value(ctx.byteorder, ctx.offset, ctx.buf, sig, 0) {
                Ok(size) => {
                    ctx.offset = ctx.offset + size;
                    Ok((sig_size + size, HdrVar::Catchall))
                },
                Err(error) => Err(UnmarshalError::Value(error)),
            }
        }
    }
}

proof fn lemma_signature_literals()
    ensures
        "o"@ == seq!['o'],
        "s"@ == seq!['s'],
        "u"@ == seq!['u'],
        "g"@ == seq!['g'],
{
    reveal_strlit("o");
    reveal_strlit("s");
    reveal_strlit("u");
    reveal_strlit("g");
    assert("o"@ =~= seq!['o']);
    assert("s"@ =~= seq!['s']);
    assert("u"@ =~= seq!['u']);
    assert("g"@ =~= seq!['g']);
}

} // verus!
