//! The body of a message: its parameters as bytes, their signature and the file descriptors
//! that travel with them.
use vstd::prelude::*;
use vstd::utf8::*;

use rustbus::wire::UnixFd;

use super::header;
use crate::rustbus_core::marshal::{Marshal, Unmarshal, UnmarshalContext};
use crate::rustbus_core::nesting;
use crate::rustbus_core::wire_format;
use crate::rustbus_core::wire_format::{
    MarshalError, SignatureError, UnmarshalError, ValidationError,
};
use crate::rustbus_core::ByteOrder;
use crate::text;
use crate::utils;

verus! {

/// The parameters of a message.
#[derive(Debug)]
pub struct MarshalledMessageBody {
    buf: Vec<u8>,
    sig: String,
    raw_fds: Vec<UnixFd>,
    byteorder: ByteOrder,
}

/// What a body holds.
#[verifier::ext_equal]
pub struct BodyView {
    pub buf: Seq<u8>,
    pub sig: Seq<char>,
    pub fds: Seq<UnixFd>,
    pub byteorder: ByteOrder,
}

impl View for MarshalledMessageBody {
    type V = BodyView;

    closed spec fn view(&self) -> BodyView {
        BodyView {
            buf: self.buf@,
            sig: self.sig@,
            fds: self.raw_fds@,
            byteorder: self.byteorder,
        }
    }
}

/// A body without parameters.
pub open spec fn empty_body(byteorder: ByteOrder) -> BodyView {
    BodyView { buf: seq![], sig: seq![], fds: seq![], byteorder }
}

/// The body whose only parameter is the given text.
pub open spec fn text_body(s: Seq<char>) -> BodyView {
    BodyView {
        buf: wire_format::padded(seq![], 4) + wire_format::string_bytes(s, ByteOrder::LittleEndian),
        sig: seq!['s'],
        fds: seq![],
        byteorder: ByteOrder::LittleEndian,
    }
}

impl Default for MarshalledMessageBody {
    fn default() -> (body: Self)
        ensures
            body@ == empty_body(ByteOrder::LittleEndian),
    {
        Self::new()
    }
}

/// Whether appending a parameter takes one body to the other: its bytes and descriptors are
/// written, and its signature is appended where that succeeded.
pub open spec fn pushed<P: Marshal>(
    before: BodyView,
    p: P,
    after: BodyView,
    result: Result<(), MarshalError>,
) -> bool {
    &&& p.marshals(before.byteorder, before.buf, before.fds, after.buf, after.fds, result)
    &&& after.byteorder == before.byteorder
    &&& if result is Ok {
        exists|sig: Seq<char>| #[trigger] P::is_sig(sig) && after.sig == before.sig + sig
    } else {
        after.sig == before.sig
    }
}

/// Whether appending two parameters takes one body to the other. Nothing is appended behind a
/// parameter that could not be written.
pub open spec fn pushed2<P1: Marshal, P2: Marshal>(
    before: BodyView,
    p1: P1,
    p2: P2,
    after: BodyView,
    result: Result<(), MarshalError>,
) -> bool {
    exists|middle: BodyView, first: Result<(), MarshalError>|
        {
            &&& #[trigger] pushed(before, p1, middle, first)
            &&& if first is Ok {
                pushed(middle, p2, after, result)
            } else {
                after == middle && result == first
            }
        }
}

/// Whether appending three parameters takes one body to the other.
pub open spec fn pushed3<P1: Marshal, P2: Marshal, P3: Marshal>(
    before: BodyView,
    p1: P1,
    p2: P2,
    p3: P3,
    after: BodyView,
    result: Result<(), MarshalError>,
) -> bool {
    exists|middle: BodyView, first: Result<(), MarshalError>|
        {
            &&& #[trigger] pushed(before, p1, middle, first)
            &&& if first is Ok {
                pushed2(middle, p2, p3, after, result)
            } else {
                after == middle && result == first
            }
        }
}

/// Whether appending four parameters takes one body to the other.
pub open spec fn pushed4<P1: Marshal, P2: Marshal, P3: Marshal, P4: Marshal>(
    before: BodyView,
    p1: P1,
    p2: P2,
    p3: P3,
    p4: P4,
    after: BodyView,
    result: Result<(), MarshalError>,
) -> bool {
    exists|middle: BodyView, first: Result<(), MarshalError>|
        {
            &&& #[trigger] pushed(before, p1, middle, first)
            &&& if first is Ok {
                pushed3(middle, p2, p3, p4, after, result)
            } else {
                after == middle && result == first
            }
        }
}

/// Whether appending five parameters takes one body to the other.
pub open spec fn pushed5<P1: Marshal, P2: Marshal, P3: Marshal, P4: Marshal, P5: Marshal>(
    before: BodyView,
    p1: P1,
    p2: P2,
    p3: P3,
    p4: P4,
    p5: P5,
    after: BodyView,
    result: Result<(), MarshalError>,
) -> bool {
    exists|middle: BodyView, first: Result<(), MarshalError>|
        {
            &&& #[trigger] pushed(before, p1, middle, first)
            &&& if first is Ok {
                pushed4(middle, p2, p3, p4, p5, after, result)
            } else {
                after == middle && result == first
            }
        }
}

/// Whether appending the parameters from `from` on takes one body to the other.
pub open spec fn pushed_all<P: Marshal>(
    before: BodyView,
    params: Seq<P>,
    from: int,
    after: BodyView,
    result: Result<(), MarshalError>,
) -> bool
    decreases params.len() - from,
{
    if from >= params.len() {
        after == before && result is Ok
    } else {
        exists|middle: BodyView, first: Result<(), MarshalError>|
            {
                &&& #[trigger] pushed(before, params[from], middle, first)
                &&& if first is Ok {
                    pushed_all(middle, params, from + 1, after, result)
                } else {
                    after == middle && result == first
                }
            }
    }
}

/// How far the values of the types from `index` on reach, which the signature of the body has,
/// from `offset` on: where the last one ends, or the error of the first one that is refused.
pub open spec fn values_end(body: BodyView, types: Seq<Seq<char>>, index: int, offset: int) -> Result<
    int,
    UnmarshalError,
>
    decreases types.len() - index,
{
    if index >= types.len() {
        Ok(offset)
    } else {
        match nesting::depth_error(body.byteorder, body.buf, offset, types[index]) {
            Some(error) => Err(error),
            None => match wire_format::value_size(
                body.byteorder is LittleEndian,
                offset,
                body.buf,
                body.sig,
                index,
            ) {
                Ok(size) => values_end(body, types, index + 1, offset + size),
                Err(error) => Err(UnmarshalError::Value(error)),
            },
        }
    }
}

/// The bytes of the body are values of the types in its signature, and nothing more. Without a
/// signature there are none.
pub open spec fn valid_body(body: BodyView) -> bool {
    if body.sig.len() == 0 {
        body.buf.len() == 0
    } else {
        match wire_format::parsed_signature(body.sig) {
            Ok(types) => values_end(body, types, 0, 0) == Ok::<int, UnmarshalError>(
                body.buf.len() as int,
            ),
            Err(_) => false,
        }
    }
}

impl MarshalledMessageBody {
    /// An empty body in little endian byte order.
    pub fn new() -> (body: Self)
        ensures
            body@ == empty_body(ByteOrder::LittleEndian),
    {
        let body = MarshalledMessageBody {
            buf: Vec::new(),
            raw_fds: Vec::new(),
            sig: String::new(),
            byteorder: ByteOrder::LittleEndian,
        };
        assert(body@ =~= empty_body(ByteOrder::LittleEndian));
        body
    }

    /// An empty body in the given byte order.
    pub fn with_byteorder(b: ByteOrder) -> (body: Self)
        ensures
            body@ == empty_body(b),
    {
        let body = MarshalledMessageBody {
            buf: Vec::new(),
            raw_fds: Vec::new(),
            sig: String::new(),
            byteorder: b,
        };
        assert(body@ =~= empty_body(b));
        body
    }

    pub fn from_parts(
        buf: Vec<u8>,
        raw_fds: Vec<UnixFd>,
        sig: String,
        byteorder: ByteOrder,
    ) -> (body: Self)
        ensures
            body@ == (BodyView { buf: buf@, sig: sig@, fds: raw_fds@, byteorder }),
    {
        Self { buf, sig, raw_fds, byteorder }
    }

    pub fn sig(&self) -> (sig: &str)
        ensures
            sig@ == self@.sig,
    {
        self.sig.as_str()
    }

    pub fn buf(&self) -> (buf: &[u8])
        ensures
            buf@ == self@.buf,
    {
        self.buf.as_slice()
    }

    pub fn fds(&self) -> (fds: &[UnixFd])
        ensures
            fds@ == self@.fds,
    {
        self.raw_fds.as_slice()
    }

    pub fn byteorder(&self) -> (byteorder: ByteOrder)
        ensures
            byteorder == self@.byteorder,
    {
        self.byteorder
    }

    /// Copies of the file descriptors. A descriptor that was taken out of the body is taken out
    /// of its copy too.
    pub fn get_fds(&self) -> (fds: Vec<UnixFd>)
        ensures
            fds@ == self@.fds,
    {
        let mut fds: Vec<UnixFd> = Vec::new();
        let mut i: usize = 0;
        while i < self.raw_fds.len()
            invariant
                i <= self.raw_fds@.len(),
                fds@ == self.raw_fds@.take(i as int),
            decreases self.raw_fds@.len() - i,
        {
            fds.push(self.raw_fds[i].clone());
            assert(fds@ =~= self.raw_fds@.take(i as int + 1));
            i += 1;
        }
        assert(self.raw_fds@.take(i as int) =~= self.raw_fds@);
        fds
    }

    /// Removes all parameters, with their signature and file descriptors, so that parameters
    /// can be appended as to a new body. The allocations stay.
    pub fn reset(&mut self)
        ensures
            final(self)@ == empty_body(old(self)@.byteorder),
    {
        self.sig.clear();
        self.buf.clear();
        self.raw_fds.clear();
        assert(self@ =~= empty_body(old(self)@.byteorder));
    }

    /// Makes room for `additional` more bytes of parameters.
    pub fn reserve(&mut self, additional: usize)
        requires
            old(self)@.buf.len() + additional <= isize::MAX,
        ensures
            final(self)@ == old(self)@,
    {
        self.buf.reserve(additional);
    }

    fn push_ref<P: Marshal>(&mut self, p: &P) -> (result: Result<(), MarshalError>)
        ensures
            pushed(old(self)@, *p, final(self)@, result),
    {
        let result = p.marshal(self.byteorder, &mut self.buf, &mut self.raw_fds);
        if result.is_ok() {
            let sig = P::signature();
            self.sig.append(sig.as_str());
        }
        result
    }

    /// Appends a parameter.
    pub fn push_param<P: Marshal>(&mut self, p: P) -> (result: Result<(), MarshalError>)
        ensures
            pushed(old(self)@, p, final(self)@, result),
    {
        self.push_ref(&p)
    }

    /// Appends two parameters. Stops at the first one that cannot be written.
    pub fn push_param2<P1: Marshal, P2: Marshal>(&mut self, p1: P1, p2: P2) -> (result: Result<
        (),
        MarshalError,
    >)
        ensures
            pushed2(old(self)@, p1, p2, final(self)@, result),
    {
        let first = self.push_ref(&p1);
        assert(pushed(old(self)@, p1, self@, first));
        match first {
            Ok(()) => self.push_ref(&p2),
            Err(error) => Err(error),
        }
    }

    /// Appends three parameters. Stops at the first one that cannot be written.
    pub fn push_param3<P1: Marshal, P2: Marshal, P3: Marshal>(
        &mut self,
        p1: P1,
        p2: P2,
        p3: P3,
    ) -> (result: Result<(), MarshalError>)
        ensures
            pushed3(old(self)@, p1, p2, p3, final(self)@, result),
    {
        let first = self.push_ref(&p1);
        assert(pushed(old(self)@, p1, self@, first));
        match first {
            Ok(()) => self.push_param2(p2, p3),
            Err(error) => Err(error),
        }
    }

    /// Appends four parameters. Stops at the first one that cannot be written.
    pub fn push_param4<P1: Marshal, P2: Marshal, P3: Marshal, P4: Marshal>(
        &mut self,
        p1: P1,
        p2: P2,
        p3: P3,
        p4: P4,
    ) -> (result: Result<(), MarshalError>)
        ensures
            pushed4(old(self)@, p1, p2, p3, p4, final(self)@, result),
    {
        let first = self.push_ref(&p1);
        assert(pushed(old(self)@, p1, self@, first));
        match first {
            Ok(()) => self.push_param3(p2, p3, p4),
            Err(error) => Err(error),
        }
    }

    /// Appends five parameters. Stops at the first one that cannot be written.
    pub fn push_param5<P1: Marshal, P2: Marshal, P3: Marshal, P4: Marshal, P5: Marshal>(
        &mut self,
        p1: P1,
        p2: P2,
        p3: P3,
        p4: P4,
        p5: P5,
    ) -> (result: Result<(), MarshalError>)
        ensures
            pushed5(old(self)@, p1, p2, p3, p4, p5, final(self)@, result),
    {
        let first = self.push_ref(&p1);
        assert(pushed(old(self)@, p1, self@, first));
        match first {
            Ok(()) => self.push_param4(p2, p3, p4, p5),
            Err(error) => Err(error),
        }
    }

    /// Appends any number of parameters of the same type. Stops at the first one that cannot be
    /// written.
    pub fn push_params<P: Marshal>(&mut self, params: &[P]) -> (result: Result<(), MarshalError>)
        ensures
            pushed_all(old(self)@, params@, 0, final(self)@, result),
    {
        self.push_params_from(params, 0)
    }

    fn push_params_from<P: Marshal>(&mut self, params: &[P], from: usize) -> (result: Result<
        (),
        MarshalError,
    >)
        requires
            from <= params@.len(),
        ensures
            pushed_all(old(self)@, params@, from as int, final(self)@, result),
        decreases params@.len() - from,
    {
        if from == params.len() {
            return Ok(());
        }
        let first = self.push_ref(&params[from]);
        assert(pushed(old(self)@, params@[from as int], self@, first));
        match first {
            Ok(()) => self.push_params_from(params, from + 1),
            Err(error) => Err(error),
        }
    }

    /// Appends a parameter as a variant: its signature is written before it, and the signature
    /// of the body has a variant in its place.
    pub fn push_variant<P: Marshal>(&mut self, p: P) -> (result: Result<(), MarshalError>)
        ensures
            exists|sig: Seq<char>| #[trigger]
                P::is_sig(sig) && p.marshals(
                    old(self)@.byteorder,
                    old(self)@.buf + wire_format::signature_bytes(sig),
                    old(self)@.fds,
                    final(self)@.buf,
                    final(self)@.fds,
                    result,
                ),
            final(self)@.byteorder == old(self)@.byteorder,
            final(self)@.sig == if result is Ok {
                old(self)@.sig.push('v')
            } else {
                old(self)@.sig
            },
    {
        let sig = P::signature();
        wire_format::write_signature(sig.as_str(), &mut self.buf);
        let result = p.marshal(self.byteorder, &mut self.buf, &mut self.raw_fds);
        if result.is_ok() {
            proof {
                reveal_strlit("v");
                assert(old(self).sig@ + "v"@ =~= old(self).sig@.push('v'));
            }
            self.sig.append("v");
        }
        result
    }

    /// Checks that the bytes of the body are values of the types in its signature, and nothing
    /// more.
    pub fn validate(&self) -> (result: Result<(), UnmarshalError>)
        ensures
            result is Ok <==> valid_body(self@),
            if self@.sig.len() == 0 {
                result == if self@.buf.len() == 0 {
                    Ok::<(), UnmarshalError>(())
                } else {
                    Err::<(), UnmarshalError>(
                        UnmarshalError::Validation(
                            ValidationError::InvalidSignature(SignatureError::EmptySignature),
                        ),
                    )
                }
            } else {
                match wire_format::parsed_signature(self@.sig) {
                    Ok(types) => match values_end(self@, types, 0, 0) {
                        Ok(end) => result == if end == self@.buf.len() {
                            Ok::<(), UnmarshalError>(())
                        } else {
                            Err::<(), UnmarshalError>(UnmarshalError::NotAllBytesUsed)
                        },
                        Err(error) => result == Err::<(), UnmarshalError>(error),
                    },
                    Err(error) => result == Err::<(), UnmarshalError>(
                        UnmarshalError::Validation(ValidationError::InvalidSignature(error)),
                    ),
                }
            },
    {
        if self.sig.as_str().is_empty() && self.buf.len() == 0 {
            return Ok(());
        }
        let types = match wire_format::parse_signature(self.sig.as_str()) {
            Ok(types) => types,
            Err(error) => {
                return Err(UnmarshalError::Validation(ValidationError::InvalidSignature(error)));
            },
        };
        let ghost views = types@.map_values(|t: String| t@);
        let mut used: usize = 0;
        let mut i: usize = 0;
        while i < types.len()
            invariant
                i <= types@.len(),
                used <= self.buf@.len(),
                views == types@.map_values(|t: String| t@),
                wire_format::parsed_signature(self.sig@) == Ok::<
                    Seq<Seq<char>>,
                    SignatureError,
                >(views),
                values_end(self@, views, 0, 0) == values_end(self@, views, i as int, used as int),
                self@.sig.len() > 0,
            decreases types@.len() - i,
        {
            assert(views[i as int] == types@[i as int]@);
            match nesting::check_depth(
                self.byteorder,
                self.buf.as_slice(),
                used,
                types[i].as_str(),
            ) {
                Ok(()) => {},
                Err(error) => {
                    return Err(error);
                },
            }
            match wire_format::validate_value(
                self.byteorder,
                used,
                self.buf.as_slice(),
                self.sig.as_str(),
                i,
            ) {
                Ok(size) => {
                    assert(self.buf@.len() == self.buf.len());
                    used = used + size;
                },
                Err(error) => {
                    return Err(UnmarshalError::Value(error));
                },
            }
            i += 1;
        }
        if used == self.buf.len() {
            Ok(())
        } else {
            Err(UnmarshalError::NotAllBytesUsed)
        }
    }

    /// A parser that starts at the first parameter.
    pub fn parser(&self) -> (parser: MessageBodyParser<'_>)
        requires
            parsable(self@.sig),
        ensures
            parser@ == parser_at_start(self@),
            wire_format::basic_types(self@.sig) ==> parser@.types == wire_format::each_alone(
                self@.sig,
            ),
    {
        MessageBodyParser::new(self)
    }

    /// A parser that starts at the first parameter, or the error in the signature of the body.
    pub fn try_parser(&self) -> (parser: Result<MessageBodyParser<'_>, SignatureError>)
        ensures
            match parser {
                Ok(parser) => {
                    &&& parsable(self@.sig)
                    &&& parser@ == parser_at_start(self@)
                    &&& wire_format::basic_types(self@.sig) ==> parser@.types
                        == wire_format::each_alone(self@.sig)
                },
                Err(error) => {
                    &&& !parsable(self@.sig)
                    &&& !wire_format::basic_types(self@.sig)
                    &&& wire_format::parsed_signature(self@.sig) == Err::<
                        Seq<Seq<char>>,
                        SignatureError,
                    >(error)
                },
            },
    {
        match wire_format::parse_signature(self.sig.as_str()) {
            Ok(_) => Ok(MessageBodyParser::new(self)),
            Err(SignatureError::EmptySignature) => Ok(MessageBodyParser::new(self)),
            Err(error) => Err(error),
        }
    }
}

/// Reads the parameters of a body one by one.
#[derive(Debug)]
pub struct MessageBodyParser<'body> {
    buf_idx: usize,
    sig_idx: usize,
    sigs: Vec<String>,
    body: &'body MarshalledMessageBody,
}

/// The state of a parser: the body, the types in its signature, the parameter that is next and
/// where its bytes start.
#[verifier::ext_equal]
pub struct ParserView {
    pub body: BodyView,
    pub types: Seq<Seq<char>>,
    pub sig_idx: int,
    pub buf_idx: int,
}

impl ParserView {
    /// The next parameter is one of the body, or they were all read, and its bytes start inside
    /// the body.
    pub open spec fn in_bounds(self) -> bool {
        &&& 0 <= self.sig_idx <= self.types.len()
        &&& 0 <= self.buf_idx <= self.body.buf.len()
    }
}

impl<'body> View for MessageBodyParser<'body> {
    type V = ParserView;

    closed spec fn view(&self) -> ParserView {
        ParserView {
            body: self.body@,
            types: self.sigs@.map_values(|t: String| t@),
            sig_idx: self.sig_idx as int,
            buf_idx: self.buf_idx as int,
        }
    }
}

/// A signature that a parser can work with: one that is accepted, or the empty one.
pub open spec fn parsable(sig: Seq<char>) -> bool {
    sig.len() == 0 || wire_format::parsed_signature(sig) is Ok
}

/// A parser of `body` that has read nothing.
pub open spec fn parser_at_start(body: BodyView) -> ParserView {
    ParserView {
        body,
        types: if body.sig.len() == 0 {
            seq![]
        } else {
            wire_format::parsed_signature(body.sig)->Ok_0
        },
        sig_idx: 0,
        buf_idx: 0,
    }
}

/// Whether asking for a parameter of type `T` takes one state to the other, with the given
/// result. A refused request leaves the parser as it was.
pub open spec fn got<'body, T: Unmarshal<'body>>(
    before: ParserView,
    after: ParserView,
    result: Result<T, UnmarshalError>,
) -> bool {
    if before.sig_idx >= before.types.len() {
        after == before && result == Err::<T, UnmarshalError>(UnmarshalError::EndOfMessage)
    } else {
        exists|sig: Seq<char>| #[trigger]
            T::is_sig(sig) && got_typed::<T>(before, after, sig, result)
    }
}

/// Whether asking for a parameter of type `T`, whose signature is `sig`, takes one state to the
/// other, with the given result.
pub open spec fn got_typed<'body, T: Unmarshal<'body>>(
    before: ParserView,
    after: ParserView,
    sig: Seq<char>,
    result: Result<T, UnmarshalError>,
) -> bool {
    if before.types[before.sig_idx] != sig {
        after == before && result == Err::<T, UnmarshalError>(UnmarshalError::WrongSignature)
    } else {
        exists|ctx: UnmarshalContext<'body>, read: Result<(usize, T), UnmarshalError>|
            {
                &&& ctx.buf@ == before.body.buf
                &&& ctx.fds@ == before.body.fds
                &&& ctx.byteorder == before.body.byteorder
                &&& ctx.offset == before.buf_idx
                &&& #[trigger] T::unmarshals(ctx, read)
                &&& match read {
                    Ok((size, value)) => {
                        &&& result == Ok::<T, UnmarshalError>(value)
                        &&& after == (ParserView {
                            sig_idx: before.sig_idx + 1,
                            buf_idx: before.buf_idx + size,
                            ..before
                        })
                    },
                    Err(error) => after == before && result == Err::<T, UnmarshalError>(error),
                }
            }
    }
}

/// Whether asking for two parameters in turn takes one state to the other. It stops at the
/// first one that is refused.
pub open spec fn got_in_turn2<'body, T1: Unmarshal<'body>, T2: Unmarshal<'body>>(
    before: ParserView,
    after: ParserView,
    result: Result<(T1, T2), UnmarshalError>,
) -> bool {
    exists|middle: ParserView, first: Result<T1, UnmarshalError>|
        {
            &&& #[trigger] got::<T1>(before, middle, first)
            &&& match first {
                Ok(v1) => exists|second: Result<T2, UnmarshalError>|
                    {
                        &&& #[trigger] got::<T2>(middle, after, second)
                        &&& match second {
                            Ok(v2) => result == Ok::<(T1, T2), UnmarshalError>((v1, v2)),
                            Err(error) => result == Err::<(T1, T2), UnmarshalError>(error),
                        }
                    },
                Err(error) => result == Err::<(T1, T2), UnmarshalError>(error),
            }
        }
}

/// Whether asking for three parameters in turn takes one state to the other.
pub open spec fn got_in_turn3<'body, T1: Unmarshal<'body>, T2: Unmarshal<'body>, T3: Unmarshal<'body>>(
    before: ParserView,
    after: ParserView,
    result: Result<(T1, T2, T3), UnmarshalError>,
) -> bool {
    exists|middle: ParserView, first: Result<T1, UnmarshalError>|
        {
            &&& #[trigger] got::<T1>(before, middle, first)
            &&& match first {
                Ok(v1) => exists|others: Result<(T2, T3), UnmarshalError>|
                    {
                        &&& #[trigger] got_in_turn2::<T2, T3>(middle, after, others)
                        &&& match others {
                            Ok((v2, v3)) => result == Ok::<(T1, T2, T3), UnmarshalError>((v1, v2, v3)),
                            Err(error) => result == Err::<(T1, T2, T3), UnmarshalError>(error),
                        }
                    },
                Err(error) => result == Err::<(T1, T2, T3), UnmarshalError>(error),
            }
        }
}

/// Whether asking for four parameters in turn takes one state to the other.
pub open spec fn got_in_turn4<'body, T1: Unmarshal<'body>, T2: Unmarshal<'body>, T3: Unmarshal<'body>, T4: Unmarshal<'body>>(
    before: ParserView,
    after: ParserView,
    result: Result<(T1, T2, T3, T4), UnmarshalError>,
) -> bool {
    exists|middle: ParserView, first: Result<T1, UnmarshalError>|
        {
            &&& #[trigger] got::<T1>(before, middle, first)
            &&& match first {
                Ok(v1) => exists|others: Result<(T2, T3, T4), UnmarshalError>|
                    {
                        &&& #[trigger] got_in_turn3::<T2, T3, T4>(middle, after, others)
                        &&& match others {
                            Ok((v2, v3, v4)) => result == Ok::<(T1, T2, T3, T4), UnmarshalError>((v1, v2, v3, v4)),
                            Err(error) => result == Err::<(T1, T2, T3, T4), UnmarshalError>(error),
                        }
                    },
                Err(error) => result == Err::<(T1, T2, T3, T4), UnmarshalError>(error),
            }
        }
}

/// Whether asking for five parameters in turn takes one state to the other.
pub open spec fn got_in_turn5<'body, T1: Unmarshal<'body>, T2: Unmarshal<'body>, T3: Unmarshal<'body>, T4: Unmarshal<'body>, T5: Unmarshal<'body>>(
    before: ParserView,
    after: ParserView,
    result: Result<(T1, T2, T3, T4, T5), UnmarshalError>,
) -> bool {
    exists|middle: ParserView, first: Result<T1, UnmarshalError>|
        {
            &&& #[trigger] got::<T1>(before, middle, first)
            &&& match first {
                Ok(v1) => exists|others: Result<(T2, T3, T4, T5), UnmarshalError>|
                    {
                        &&& #[trigger] got_in_turn4::<T2, T3, T4, T5>(middle, after, others)
                        &&& match others {
                            Ok((v2, v3, v4, v5)) => result == Ok::<(T1, T2, T3, T4, T5), UnmarshalError>((v1, v2, v3, v4, v5)),
                            Err(error) => result == Err::<(T1, T2, T3, T4, T5), UnmarshalError>(error),
                        }
                    },
                Err(error) => result == Err::<(T1, T2, T3, T4, T5), UnmarshalError>(error),
            }
        }
}

impl<'body> MessageBodyParser<'body> {
    #[verifier::type_invariant]
    spec fn inv(self) -> bool {
        &&& self.buf_idx <= self.body@.buf.len()
        &&& self.sig_idx <= self.sigs@.len()
    }

    /// A parser that starts at the first parameter of `body`.
    pub fn new(body: &'body MarshalledMessageBody) -> (parser: Self)
        requires
            parsable(body@.sig),
        ensures
            parser@ == parser_at_start(body@),
            wire_format::basic_types(body@.sig) ==> parser@.types == wire_format::each_alone(
                body@.sig,
            ),
    {
        let sigs = match wire_format::parse_signature(body.sig.as_str()) {
            Ok(sigs) => sigs,
            Err(_) => {
                let none: Vec<String> = Vec::new();
                assert(none@.map_values(|t: String| t@) =~= seq![]);
                none
            },
        };
        Self { buf_idx: 0, sig_idx: 0, sigs, body }
    }

    /// The type of the next parameter, if there is one.
    pub fn get_next_sig(&self) -> (sig: Option<&String>)
        ensures
            self@.in_bounds(),
            match sig {
                Some(sig) => self@.sig_idx < self@.types.len() && sig@
                    == self@.types[self@.sig_idx],
                None => self@.sig_idx == self@.types.len(),
            },
    {
        proof {
            use_type_invariant(self);
        }
        if self.sig_idx < self.sigs.len() {
            Some(&self.sigs[self.sig_idx])
        } else {
            None
        }
    }

    /// The types of the parameters that are left, if any are left.
    pub fn get_left_sigs(&self) -> (sigs: Option<&[String]>)
        ensures
            self@.in_bounds(),
            match sigs {
                Some(left) => self@.sig_idx < self@.types.len() && left@.map_values(
                    |t: String| t@,
                ) == self@.types.skip(self@.sig_idx),
                None => self@.sig_idx == self@.types.len(),
            },
    {
        proof {
            use_type_invariant(self);
        }
        if self.sig_idx >= self.sigs.len() {
            return None;
        }
        let left = vstd::slice::slice_subrange(
            self.sigs.as_slice(),
            self.sig_idx,
            self.sigs.len(),
        );
        assert(left@.map_values(|t: String| t@) =~= self@.types.skip(self@.sig_idx));
        Some(left)
    }

    /// Reads the next parameter, which has to be of type `T`.
    pub fn get<T: Unmarshal<'body>>(&mut self) -> (result: Result<T, UnmarshalError>)
        ensures
            got::<T>(old(self)@, final(self)@, result),
            final(self)@.in_bounds(),
            final(self)@.body == old(self)@.body,
            final(self)@.types == old(self)@.types,
    {
        proof {
            use_type_invariant(&*self);
        }
        if self.sig_idx >= self.sigs.len() {
            return Err(UnmarshalError::EndOfMessage);
        }
        let sig = T::signature();
        assert(self@.types[self@.sig_idx] == self.sigs@[self.sig_idx as int]@);
        if !text::str_eq(self.sigs[self.sig_idx].as_str(), sig.as_str()) {
            return Err(UnmarshalError::WrongSignature);
        }
        let mut ctx = UnmarshalContext {
            byteorder: self.body.byteorder,
            buf: self.body.buf.as_slice(),
            offset: self.buf_idx,
            fds: self.body.raw_fds.as_slice(),
        };
        let ghost before = ctx;
        let read = T::unmarshal(&mut ctx);
        assert(T::unmarshals(before, read));
        match read {
            Ok((bytes, value)) => {
                self.buf_idx = ctx.offset;
                self.sig_idx = self.sig_idx + 1;
                Ok(value)
            },
            Err(error) => Err(error),
        }
    }

    /// Whether there are `count` parameters left.
    fn has_left(&self, count: usize) -> (enough: bool)
        ensures
            enough == (self@.sig_idx + count <= self@.types.len()),
            self@.in_bounds(),
    {
        proof {
            use_type_invariant(self);
        }
        count <= self.sigs.len() - self.sig_idx
    }

    /// Goes back to an earlier parameter.
    fn rewind(&mut self, buf_idx: usize, sig_idx: usize)
        requires
            buf_idx <= old(self)@.body.buf.len(),
            sig_idx <= old(self)@.types.len(),
        ensures
            final(self)@.in_bounds(),
            final(self)@ == (ParserView {
                buf_idx: buf_idx as int,
                sig_idx: sig_idx as int,
                ..old(self)@
            }),
    {
        proof {
            use_type_invariant(&*self);
        }
        self.buf_idx = buf_idx;
        self.sig_idx = sig_idx;
    }

    fn in_turn2<T1: Unmarshal<'body>, T2: Unmarshal<'body>>(&mut self) -> (result: Result<(T1, T2), UnmarshalError>)
        ensures
            got_in_turn2::<T1, T2>(old(self)@, final(self)@, result),
            final(self)@.in_bounds(),
            final(self)@.body == old(self)@.body,
            final(self)@.types == old(self)@.types,
    {
        let first = self.get::<T1>();
        let ghost middle = self@;
        assert(got::<T1>(old(self)@, middle, first));
        match first {
            Ok(v1) => {
                let others = self.get::<T2>();
                assert(got::<T2>(middle, self@, others));
                match others {
                    Ok(v2) => Ok((v1, v2)),
                    Err(error) => Err(error),
                }
            },
            Err(error) => Err(error),
        }
    }

    /// Reads the next two parameters. Where one of them is refused, none is read.
    pub fn get2<T1: Unmarshal<'body>, T2: Unmarshal<'body>>(&mut self) -> (result: Result<(T1, T2), UnmarshalError>)
        ensures
            final(self)@.in_bounds(),
            if old(self)@.sig_idx + 2 > old(self)@.types.len() {
                &&& final(self)@ == old(self)@
                &&& result == Err::<(T1, T2), UnmarshalError>(UnmarshalError::EndOfMessage)
            } else {
                exists|end: ParserView|
                    {
                        &&& #[trigger] got_in_turn2::<T1, T2>(old(self)@, end, result)
                        &&& final(self)@ == if result is Ok {
                            end
                        } else {
                            old(self)@
                        }
                    }
            },
    {
        if !self.has_left(2) {
            return Err(UnmarshalError::EndOfMessage);
        }
        proof {
            use_type_invariant(&*self);
        }
        let start_buf_idx: usize = self.buf_idx;
        let start_sig_idx: usize = self.sig_idx;
        let result = self.in_turn2::<T1, T2>();
        assert(got_in_turn2::<T1, T2>(old(self)@, self@, result));
        if result.is_err() {
            self.rewind(start_buf_idx, start_sig_idx);
        }
        result
    }

    fn in_turn3<T1: Unmarshal<'body>, T2: Unmarshal<'body>, T3: Unmarshal<'body>>(&mut self) -> (result: Result<(T1, T2, T3), UnmarshalError>)
        ensures
            got_in_turn3::<T1, T2, T3>(old(self)@, final(self)@, result),
            final(self)@.in_bounds(),
            final(self)@.body == old(self)@.body,
            final(self)@.types == old(self)@.types,
    {
        let first = self.get::<T1>();
        let ghost middle = self@;
        assert(got::<T1>(old(self)@, middle, first));
        match first {
            Ok(v1) => {
                let others = self.in_turn2::<T2, T3>();
                assert(got_in_turn2::<T2, T3>(middle, self@, others));
                match others {
                    Ok((v2, v3)) => Ok((v1, v2, v3)),
                    Err(error) => Err(error),
                }
            },
            Err(error) => Err(error),
        }
    }

    /// Reads the next three parameters. Where one of them is refused, none is read.
    pub fn get3<T1: Unmarshal<'body>, T2: Unmarshal<'body>, T3: Unmarshal<'body>>(&mut self) -> (result: Result<(T1, T2, T3), UnmarshalError>)
        ensures
            final(self)@.in_bounds(),
            if old(self)@.sig_idx + 3 > old(self)@.types.len() {
                &&& final(self)@ == old(self)@
                &&& result == Err::<(T1, T2, T3), UnmarshalError>(UnmarshalError::EndOfMessage)
            } else {
                exists|end: ParserView|
                    {
                        &&& #[trigger] got_in_turn3::<T1, T2, T3>(old(self)@, end, result)
                        &&& final(self)@ == if result is Ok {
                            end
                        } else {
                            old(self)@
                        }
                    }
            },
    {
        if !self.has_left(3) {
            return Err(UnmarshalError::EndOfMessage);
        }
        proof {
            use_type_invariant(&*self);
        }
        let start_buf_idx: usize = self.buf_idx;
        let start_sig_idx: usize = self.sig_idx;
        let result = self.in_turn3::<T1, T2, T3>();
        assert(got_in_turn3::<T1, T2, T3>(old(self)@, self@, result));
        if result.is_err() {
            self.rewind(start_buf_idx, start_sig_idx);
        }
        result
    }

    fn in_turn4<T1: Unmarshal<'body>, T2: Unmarshal<'body>, T3: Unmarshal<'body>, T4: Unmarshal<'body>>(&mut self) -> (result: Result<(T1, T2, T3, T4), UnmarshalError>)
        ensures
            got_in_turn4::<T1, T2, T3, T4>(old(self)@, final(self)@, result),
            final(self)@.in_bounds(),
            final(self)@.body == old(self)@.body,
            final(self)@.types == old(self)@.types,
    {
        let first = self.get::<T1>();
        let ghost middle = self@;
        assert(got::<T1>(old(self)@, middle, first));
        match first {
            Ok(v1) => {
                let others = self.in_turn3::<T2, T3, T4>();
                assert(got_in_turn3::<T2, T3, T4>(middle, self@, others));
                match others {
                    Ok((v2, v3, v4)) => Ok((v1, v2, v3, v4)),
                    Err(error) => Err(error),
                }
            },
            Err(error) => Err(error),
        }
    }

    /// Reads the next four parameters. Where one of them is refused, none is read.
    pub fn get4<T1: Unmarshal<'body>, T2: Unmarshal<'body>, T3: Unmarshal<'body>, T4: Unmarshal<'body>>(&mut self) -> (result: Result<(T1, T2, T3, T4), UnmarshalError>)
        ensures
            final(self)@.in_bounds(),
            if old(self)@.sig_idx + 4 > old(self)@.types.len() {
                &&& final(self)@ == old(self)@
                &&& result == Err::<(T1, T2, T3, T4), UnmarshalError>(UnmarshalError::EndOfMessage)
            } else {
                exists|end: ParserView|
                    {
                        &&& #[trigger] got_in_turn4::<T1, T2, T3, T4>(old(self)@, end, result)
                        &&& final(self)@ == if result is Ok {
                            end
                        } else {
                            old(self)@
                        }
                    }
            },
    {
        if !self.has_left(4) {
            return Err(UnmarshalError::EndOfMessage);
        }
        proof {
            use_type_invariant(&*self);
        }
        let start_buf_idx: usize = self.buf_idx;
        let start_sig_idx: usize = self.sig_idx;
        let result = self.in_turn4::<T1, T2, T3, T4>();
        assert(got_in_turn4::<T1, T2, T3, T4>(old(self)@, self@, result));
        if result.is_err() {
            self.rewind(start_buf_idx, start_sig_idx);
        }
        result
    }

    fn in_turn5<T1: Unmarshal<'body>, T2: Unmarshal<'body>, T3: Unmarshal<'body>, T4: Unmarshal<'body>, T5: Unmarshal<'body>>(&mut self) -> (result: Result<(T1, T2, T3, T4, T5), UnmarshalError>)
        ensures
            got_in_turn5::<T1, T2, T3, T4, T5>(old(self)@, final(self)@, result),
            final(self)@.in_bounds(),
            final(self)@.body == old(self)@.body,
            final(self)@.types == old(self)@.types,
    {
        let first = self.get::<T1>();
        let ghost middle = self@;
        assert(got::<T1>(old(self)@, middle, first));
        match first {
            Ok(v1) => {
                let others = self.in_turn4::<T2, T3, T4, T5>();
                assert(got_in_turn4::<T2, T3, T4, T5>(middle, self@, others));
                match others {
                    Ok((v2, v3, v4, v5)) => Ok((v1, v2, v3, v4, v5)),
                    Err(error) => Err(error),
                }
            },
            Err(error) => Err(error),
        }
    }

    /// Reads the next five parameters. Where one of them is refused, none is read.
    pub fn get5<T1: Unmarshal<'body>, T2: Unmarshal<'body>, T3: Unmarshal<'body>, T4: Unmarshal<'body>, T5: Unmarshal<'body>>(&mut self) -> (result: Result<(T1, T2, T3, T4, T5), UnmarshalError>)
        ensures
            final(self)@.in_bounds(),
            if old(self)@.sig_idx + 5 > old(self)@.types.len() {
                &&& final(self)@ == old(self)@
                &&& result == Err::<(T1, T2, T3, T4, T5), UnmarshalError>(UnmarshalError::EndOfMessage)
            } else {
                exists|end: ParserView|
                    {
                        &&& #[trigger] got_in_turn5::<T1, T2, T3, T4, T5>(old(self)@, end, result)
                        &&& final(self)@ == if result is Ok {
                            end
                        } else {
                            old(self)@
                        }
                    }
            },
    {
        if !self.has_left(5) {
            return Err(UnmarshalError::EndOfMessage);
        }
        proof {
            use_type_invariant(&*self);
        }
        let start_buf_idx: usize = self.buf_idx;
        let start_sig_idx: usize = self.sig_idx;
        let result = self.in_turn5::<T1, T2, T3, T4, T5>();
        assert(got_in_turn5::<T1, T2, T3, T4, T5>(old(self)@, self@, result));
        if result.is_err() {
            self.rewind(start_buf_idx, start_sig_idx);
        }
        result
    }
}

/// The body with one text as its parameter holds the length of the text, the text and a zero
/// byte.
pub proof fn law_text_stands_in_body(s: Seq<char>)
    requires
        encode_utf8(s).len() <= u32::MAX,
    ensures
        text_body(s).byteorder is LittleEndian,
        text_body(s).fds.len() == 0,
        text_body(s).sig == seq!['s'],
        header::text_stands_at(text_body(s).buf, 0, s, ByteOrder::LittleEndian),
        text_body(s).buf.len() == 5 + encode_utf8(s).len(),
{
    let body = text_body(s);
    let bytes = encode_utf8(s);
    utils::lemma_align_up(0, 4);
    vstd::arithmetic::div_mod::lemma_small_mod(0, 4);
    assert(utils::align_up(0, 4) == 0);
    assert(wire_format::padded(seq![], 4) =~= seq![]);
    utils::lemma_u32_round_trip(bytes.len() as u32, ByteOrder::LittleEndian);
    assert(body.buf =~= utils::u32_bytes(bytes.len() as u32, ByteOrder::LittleEndian) + bytes
        + seq![0u8]);
    assert(body.buf.subrange(4, 4 + bytes.len() as int) =~= bytes);
}

/// A body without a signature is valid only if it is empty.
pub proof fn law_no_types_no_values(body: BodyView)
    requires
        body.sig.len() == 0,
    ensures
        valid_body(body) <==> body.buf.len() == 0,
{
}

/// A new body is empty.
pub proof fn law_new_body_is_empty(byteorder: ByteOrder)
    ensures
        empty_body(byteorder).buf.len() == 0,
        empty_body(byteorder).sig.len() == 0,
        empty_body(byteorder).fds.len() == 0,
        empty_body(byteorder).byteorder == byteorder,
        valid_body(empty_body(byteorder)),
{
}

/// A parameter that was appended adds its signature behind those that were there. One that could
/// not be written adds none, and the byte order stays.
pub proof fn law_appending_keeps_signatures<P: Marshal>(
    before: BodyView,
    p: P,
    after: BodyView,
    result: Result<(), MarshalError>,
)
    requires
        pushed(before, p, after, result),
    ensures
        after.byteorder == before.byteorder,
        p.marshals(before.byteorder, before.buf, before.fds, after.buf, after.fds, result),
        result is Err ==> after.sig == before.sig,
        result is Ok ==> exists|sig: Seq<char>| #[trigger]
            P::is_sig(sig) && before.sig.len() + sig.len() == after.sig.len() && after.sig.take(
                before.sig.len() as int,
            ) == before.sig && after.sig.skip(before.sig.len() as int) == sig,
{
    if result is Ok {
        let sig = choose|sig: Seq<char>| #[trigger]
            P::is_sig(sig) && after.sig == before.sig + sig;
        assert(after.sig.take(before.sig.len() as int) =~= before.sig);
        assert(after.sig.skip(before.sig.len() as int) =~= sig);
    }
}

/// A parameter is given out only if it is the next one and of the type that was asked for. Then
/// the one behind it is next. A refused request changes nothing, and says that there is no
/// parameter left, that the type is another one, or what is wrong with the bytes.
pub proof fn law_parameters_are_given_out_by_type<'b, T: Unmarshal<'b>>(
    before: ParserView,
    after: ParserView,
    result: Result<T, UnmarshalError>,
)
    requires
        got::<T>(before, after, result),
        before.in_bounds(),
    ensures
        after.body == before.body,
        after.types == before.types,
        result is Err ==> after == before,
        result is Ok ==> {
            &&& before.sig_idx < before.types.len()
            &&& T::is_sig(before.types[before.sig_idx])
            &&& after.sig_idx == before.sig_idx + 1
            &&& after.buf_idx >= before.buf_idx
        },
        before.sig_idx == before.types.len() ==> result == Err::<T, UnmarshalError>(
            UnmarshalError::EndOfMessage,
        ),
        before.sig_idx < before.types.len() && !T::is_sig(before.types[before.sig_idx])
            ==> result == Err::<T, UnmarshalError>(UnmarshalError::WrongSignature),
{
}

/// The first parameter of a body is the first one that a parser gives out, and all of them are
/// left before that.
pub proof fn law_parser_starts_at_the_first_parameter(body: BodyView)
    ensures
        parser_at_start(body).body == body,
        parser_at_start(body).sig_idx == 0,
        parser_at_start(body).buf_idx == 0,
        body.sig.len() == 0 ==> parser_at_start(body).types.len() == 0,
        wire_format::parsed_signature(body.sig) matches Ok(types) ==> (body.sig.len() > 0
            ==> parser_at_start(body).types == types),
        parsable(body.sig) <==> body.sig.len() == 0 || wire_format::parsed_signature(body.sig)
            is Ok,
{
}

/// The values of a body are checked one behind the other: the first type is checked at its start,
/// each further one where the one before it ended, and the last one has to end where the body
/// ends.
pub proof fn law_values_follow_each_other(
    body: BodyView,
    types: Seq<Seq<char>>,
    index: int,
    offset: int,
    size: nat,
)
    requires
        0 <= index < types.len(),
        nesting::depth_error(body.byteorder, body.buf, offset, types[index]) is None,
        wire_format::value_size(
            body.byteorder is LittleEndian,
            offset,
            body.buf,
            body.sig,
            index,
        ) == Ok::<nat, rustbus::wire::unmarshal::Error>(size),
    ensures
        index + 1 < types.len() ==> values_end(body, types, index, offset) == values_end(
            body,
            types,
            index + 1,
            offset + size,
        ),
        index + 1 == types.len() ==> values_end(body, types, index, offset) == Ok::<
            int,
            UnmarshalError,
        >(offset + size),
        body.sig.len() > 0 && wire_format::parsed_signature(body.sig) == Ok::<
            Seq<Seq<char>>,
            SignatureError,
        >(types) && types.len() == 1 && index == 0 && offset == 0 ==> (valid_body(body) <==> size
            == body.buf.len()),
{
}

} // verus!
