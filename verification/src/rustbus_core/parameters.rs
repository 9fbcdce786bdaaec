//! Parameters that were appended to a body are those that a parser gives back.
use vstd::prelude::*;
use vstd::utf8::*;

use rustbus::wire::UnixFd;

use super::marshal;
use super::marshal::{Marshal, Unmarshal, UnmarshalContext};
use super::message_builder::body;
use super::message_builder::body::{BodyView, ParserView};
use super::path;
use super::path::{ObjectPath, ObjectPathBuf};
use super::round_trip;
use super::wire_format;
use super::wire_format::{MarshalError, UnmarshalError};
use super::ByteOrder;
use crate::utils;

verus! {

/// Bytes and file descriptors before a value was written, and after it.
pub struct Written {
    pub order: ByteOrder,
    pub buf: Seq<u8>,
    pub fds: Seq<UnixFd>,
    pub buf_after: Seq<u8>,
    pub fds_after: Seq<UnixFd>,
}

/// Writing `p` succeeds, and does this.
pub open spec fn is_written<P: Marshal>(p: P, w: Written) -> bool {
    p.marshals(w.order, w.buf, w.fds, w.buf_after, w.fds_after, Ok(()))
}

/// Where writing `p` does this, it keeps what was written before. Where reading a `T` from there
/// gives `read`, that ends where `p` ends, and is what `same` says.
pub open spec fn is_read<'b, P: Marshal, T: Unmarshal<'b>>(
    p: P,
    same: spec_fn(T) -> bool,
    w: Written,
    ctx: UnmarshalContext<'b>,
    read: Result<(usize, T), UnmarshalError>,
) -> bool {
    is_written(p, w) ==> {
        &&& w.buf.is_prefix_of(w.buf_after)
        &&& w.buf_after.is_prefix_of(ctx.buf@) && ctx.offset == w.buf.len() && ctx.byteorder
            == w.order && T::unmarshals(ctx, read) ==> {
            &&& read matches Ok((size, value)) && same(value) && w.buf.len() + size
                == w.buf_after.len()
        }
    }
}

/// What is read as a `T` where `p` was written is what `same` says, whatever stands around it.
pub open spec fn given_back<'b, P: Marshal, T: Unmarshal<'b>>(
    p: P,
    same: spec_fn(T) -> bool,
) -> bool {
    forall|w: Written, ctx: UnmarshalContext<'b>, read: Result<(usize, T), UnmarshalError>| #[trigger]
        is_read::<P, T>(p, same, w, ctx, read)
}

proof fn lemma_padded_prefix(buf: Seq<u8>, align: int, bytes: Seq<u8>)
    requires
        align > 0,
    ensures
        buf.is_prefix_of(wire_format::padded(buf, align) + bytes),
{
    utils::lemma_align_up(buf.len() as int, align);
    let all = wire_format::padded(buf, align) + bytes;
    assert(buf =~= all.subrange(0, buf.len() as int));
}

proof fn lemma_split_prefix(a: Seq<u8>, b: Seq<u8>)
    requires
        a.is_prefix_of(b),
    ensures
        b == a + b.skip(a.len() as int),
{
    assert(b =~= a + b.skip(a.len() as int));
}

/// Bytes are given back.
pub proof fn law_u8_given_back<'b>(number: u8)
    ensures
        given_back::<'b, u8, u8>(number, |value: u8| value == number),
{
    let same = |value: u8| value == number;
    assert forall|w: Written, ctx: UnmarshalContext<'b>, read: Result<(usize, u8), UnmarshalError>| #[trigger]
        is_read::<u8, u8>(number, same, w, ctx, read) by {
        assert(w.buf =~= w.buf.push(number).subrange(0, w.buf.len() as int));
        if is_written(number, w) && w.buf_after.is_prefix_of(ctx.buf@) {
            lemma_split_prefix(w.buf_after, ctx.buf@);
        }
    }
}

/// Integers of four bytes are given back.
pub proof fn law_u32_given_back<'b>(number: u32)
    ensures
        given_back::<'b, u32, u32>(number, |value: u32| value == number),
{
    let same = |value: u32| value == number;
    assert forall|w: Written, ctx: UnmarshalContext<'b>, read: Result<(usize, u32), UnmarshalError>| #[trigger]
        is_read::<u32, u32>(number, same, w, ctx, read) by {
        lemma_padded_prefix(w.buf, 4, utils::u32_bytes(number, w.order));
        if is_written(number, w) && w.buf_after.is_prefix_of(ctx.buf@) {
            lemma_split_prefix(w.buf_after, ctx.buf@);
            round_trip::law_u32_read_back(w.buf, number, w.order, ctx.buf@.skip(w.buf_after.len() as int));
        }
    }
}

/// Integers of eight bytes are given back.
pub proof fn law_u64_given_back<'b>(number: u64)
    ensures
        given_back::<'b, u64, u64>(number, |value: u64| value == number),
{
    let same = |value: u64| value == number;
    assert forall|w: Written, ctx: UnmarshalContext<'b>, read: Result<(usize, u64), UnmarshalError>| #[trigger]
        is_read::<u64, u64>(number, same, w, ctx, read) by {
        lemma_padded_prefix(w.buf, 8, utils::u64_bytes(number, w.order));
        if is_written(number, w) && w.buf_after.is_prefix_of(ctx.buf@) {
            lemma_split_prefix(w.buf_after, ctx.buf@);
            round_trip::law_u64_read_back(w.buf, number, w.order, ctx.buf@.skip(w.buf_after.len() as int));
        }
    }
}

/// Truth values are given back.
pub proof fn law_bool_given_back<'b>(truth: bool)
    ensures
        given_back::<'b, bool, bool>(truth, |value: bool| value == truth),
{
    let same = |value: bool| value == truth;
    assert forall|w: Written, ctx: UnmarshalContext<'b>, read: Result<(usize, bool), UnmarshalError>| #[trigger]
        is_read::<bool, bool>(truth, same, w, ctx, read) by {
        lemma_padded_prefix(w.buf, 4, utils::u32_bytes(marshal::bool_number(truth), w.order));
        if is_written(truth, w) && w.buf_after.is_prefix_of(ctx.buf@) {
            lemma_split_prefix(w.buf_after, ctx.buf@);
            round_trip::law_u32_read_back(
                w.buf,
                marshal::bool_number(truth),
                w.order,
                ctx.buf@.skip(w.buf_after.len() as int),
            );
        }
    }
}

/// Text without a NUL is given back.
pub proof fn law_str_given_back<'a, 'b>(s: &'a str)
    requires
        encode_utf8(s@).len() <= u32::MAX,
        !s@.contains('\0'),
    ensures
        given_back::<'b, &'a str, &'b str>(s, |value: &'b str| value@ == s@),
{
    let same = |value: &'b str| value@ == s@;
    assert forall|w: Written, ctx: UnmarshalContext<'b>, read: Result<(usize, &'b str), UnmarshalError>| #[trigger]
        is_read::<&'a str, &'b str>(s, same, w, ctx, read) by {
        lemma_padded_prefix(w.buf, 4, wire_format::string_bytes(s@, w.order));
        if is_written(s, w) && w.buf_after.is_prefix_of(ctx.buf@) {
            lemma_split_prefix(w.buf_after, ctx.buf@);
            round_trip::law_text_read_back(w.buf, s@, w.order, ctx.buf@.skip(w.buf_after.len() as int));
        }
    }
}

/// Text without a NUL is given back.
pub proof fn law_string_given_back<'b>(s: String)
    requires
        encode_utf8(s@).len() <= u32::MAX,
        !s@.contains('\0'),
    ensures
        given_back::<'b, String, String>(s, |value: String| value@ == s@),
{
    let same = |value: String| value@ == s@;
    assert forall|w: Written, ctx: UnmarshalContext<'b>, read: Result<(usize, String), UnmarshalError>| #[trigger]
        is_read::<String, String>(s, same, w, ctx, read) by {
        lemma_padded_prefix(w.buf, 4, wire_format::string_bytes(s@, w.order));
        if is_written(s, w) && w.buf_after.is_prefix_of(ctx.buf@) {
            lemma_split_prefix(w.buf_after, ctx.buf@);
            round_trip::law_text_read_back(w.buf, s@, w.order, ctx.buf@.skip(w.buf_after.len() as int));
        }
    }
}

/// Object paths are given back.
pub proof fn law_object_path_given_back<'a, 'b>(s: ObjectPath<'a>)
    requires
        path::valid_path(s@),
        encode_utf8(s@).len() <= u32::MAX,
    ensures
        given_back::<'b, ObjectPath<'a>, ObjectPath<'b>>(s, |value: ObjectPath<'b>| value@ == s@),
{
    let same = |value: ObjectPath<'b>| value@ == s@;
    assert forall|w: Written, ctx: UnmarshalContext<'b>, read: Result<(usize, ObjectPath<'b>), UnmarshalError>| #[trigger]
        is_read::<ObjectPath<'a>, ObjectPath<'b>>(s, same, w, ctx, read) by {
        lemma_padded_prefix(w.buf, 4, wire_format::string_bytes(s@, w.order));
        if is_written(s, w) && w.buf_after.is_prefix_of(ctx.buf@) {
            lemma_split_prefix(w.buf_after, ctx.buf@);
            round_trip::law_object_path_read_back(w.buf, s@, w.order, ctx.buf@.skip(w.buf_after.len() as int));
        }
    }
}

/// Object paths are given back.
pub proof fn law_object_path_buf_given_back<'b>(s: ObjectPathBuf)
    requires
        path::valid_path(s@),
        encode_utf8(s@).len() <= u32::MAX,
    ensures
        given_back::<'b, ObjectPathBuf, ObjectPathBuf>(s, |value: ObjectPathBuf| value@ == s@),
{
    let same = |value: ObjectPathBuf| value@ == s@;
    assert forall|w: Written, ctx: UnmarshalContext<'b>, read: Result<(usize, ObjectPathBuf), UnmarshalError>| #[trigger]
        is_read::<ObjectPathBuf, ObjectPathBuf>(s, same, w, ctx, read) by {
        lemma_padded_prefix(w.buf, 4, wire_format::string_bytes(s@, w.order));
        if is_written(s, w) && w.buf_after.is_prefix_of(ctx.buf@) {
            lemma_split_prefix(w.buf_after, ctx.buf@);
            round_trip::law_object_path_read_back(w.buf, s@, w.order, ctx.buf@.skip(w.buf_after.len() as int));
        }
    }
}

/// A parser that stands before a parameter gives it back, and then stands behind it. `before` is
/// the body to which the parameter `p` was appended, which led to `after`; more may have been
/// appended since.
pub proof fn law_pushed_is_got<'b, P: Marshal, T: Unmarshal<'b>>(
    before: BodyView,
    p: P,
    after: BodyView,
    same: spec_fn(T) -> bool,
    start: ParserView,
    end: ParserView,
    result: Result<T, UnmarshalError>,
)
    requires
        given_back::<'b, P, T>(p, same),
        body::pushed(before, p, after, Ok(())),
        after.buf.is_prefix_of(start.body.buf),
        start.body.byteorder == before.byteorder,
        start.in_bounds(),
        start.sig_idx < start.types.len(),
        start.buf_idx == before.buf.len(),
        forall|sig: Seq<char>| #[trigger] T::is_sig(sig) ==> sig == start.types[start.sig_idx],
        body::got::<T>(start, end, result),
    ensures
        result matches Ok(value) && same(value),
        end == (ParserView {
            sig_idx: start.sig_idx + 1,
            buf_idx: after.buf.len() as int,
            ..start
        }),
        before.buf.is_prefix_of(after.buf),
{
    let w = Written {
        order: before.byteorder,
        buf: before.buf,
        fds: before.fds,
        buf_after: after.buf,
        fds_after: after.fds,
    };
    assert(is_written(p, w));
    let sig = choose|sig: Seq<char>| #[trigger]
        T::is_sig(sig) && body::got_typed::<T>(start, end, sig, result);
    let (ctx, read) = choose|ctx: UnmarshalContext<'b>, read: Result<(usize, T), UnmarshalError>|
        {
            &&& ctx.buf@ == start.body.buf
            &&& ctx.fds@ == start.body.fds
            &&& ctx.byteorder == start.body.byteorder
            &&& ctx.offset == start.buf_idx
            &&& #[trigger] T::unmarshals(ctx, read)
            &&& match read {
                Ok((size, value)) => {
                    &&& result == Ok::<T, UnmarshalError>(value)
                    &&& end == (ParserView {
                        sig_idx: start.sig_idx + 1,
                        buf_idx: start.buf_idx + size,
                        ..start
                    })
                },
                Err(error) => end == start && result == Err::<T, UnmarshalError>(error),
            }
        };
    assert(is_read::<P, T>(p, same, w, ctx, read));
}

/// Appending a parameter keeps the bytes that were there.
proof fn lemma_pushed_prefix<'b, P: Marshal, T: Unmarshal<'b>>(
    before: BodyView,
    p: P,
    after: BodyView,
    same: spec_fn(T) -> bool,
)
    requires
        given_back::<'b, P, T>(p, same),
        body::pushed(before, p, after, Ok(())),
    ensures
        before.buf.is_prefix_of(after.buf),
        after.byteorder == before.byteorder,
{
    let w = Written {
        order: before.byteorder,
        buf: before.buf,
        fds: before.fds,
        buf_after: after.buf,
        fds_after: after.fds,
    };
    assert(is_written(p, w));
    let (ctx, read) = choose|ctx: UnmarshalContext<'b>, read: Result<(usize, T), UnmarshalError>|
        is_read::<P, T>(p, same, w, ctx, read);
    assert(is_read::<P, T>(p, same, w, ctx, read));
}

proof fn lemma_ok(result: Result<(), MarshalError>)
    requires
        result is Ok,
    ensures
        result == Ok::<(), MarshalError>(()),
{
    let unit = result->Ok_0;
    assert(unit == ());
}

proof fn lemma_prefix_trans(a: Seq<u8>, b: Seq<u8>, c: Seq<u8>)
    requires
        a.is_prefix_of(b),
        b.is_prefix_of(c),
    ensures
        a.is_prefix_of(c),
{
    lemma_split_prefix(a, b);
    lemma_split_prefix(b, c);
    assert(a =~= c.subrange(0, a.len() as int));
}

proof fn lemma_pushed2_prefix<'b, P1: Marshal, P2: Marshal, T1: Unmarshal<'b>, T2: Unmarshal<'b>>(
    before: BodyView,
    p1: P1,
    p2: P2,
    after: BodyView,
    same1: spec_fn(T1) -> bool,
    same2: spec_fn(T2) -> bool,
)
    requires
        given_back::<'b, P1, T1>(p1, same1),
        given_back::<'b, P2, T2>(p2, same2),
        body::pushed2(before, p1, p2, after, Ok(())),
    ensures
        before.buf.is_prefix_of(after.buf),
        after.byteorder == before.byteorder,
{
    let middle = first_of2(before, p1, p2, after);
    lemma_pushed_prefix::<P1, T1>(before, p1, middle, same1);
    lemma_pushed_prefix::<P2, T2>(middle, p2, after, same2);
    lemma_prefix_trans(before.buf, middle.buf, after.buf);
}

/// The body after the first of two parameters was appended.
proof fn first_of2<P1: Marshal, P2: Marshal>(
    before: BodyView,
    p1: P1,
    p2: P2,
    after: BodyView,
) -> (middle: BodyView)
    requires
        body::pushed2(before, p1, p2, after, Ok(())),
    ensures
        body::pushed(before, p1, middle, Ok(())),
        body::pushed(middle, p2, after, Ok(())),
{
    let (middle, first) = choose|middle: BodyView, first: Result<(), MarshalError>|
        {
            &&& #[trigger] body::pushed(before, p1, middle, first)
            &&& if first is Ok {
                body::pushed(middle, p2, after, Ok(()))
            } else {
                after == middle && Ok::<(), MarshalError>(()) == first
            }
        };
    lemma_ok(first);
    middle
}

/// A parser that stands before two parameters gives them back, and then stands behind them.
pub proof fn law_two_pushed_are_got<'b, P1: Marshal, P2: Marshal, T1: Unmarshal<'b>, T2: Unmarshal<'b>>(
    before: BodyView,
    p1: P1,
    p2: P2,
    after: BodyView,
    same1: spec_fn(T1) -> bool,
    same2: spec_fn(T2) -> bool,
    start: ParserView,
    end: ParserView,
    result: Result<(T1, T2), UnmarshalError>,
)
    requires
        given_back::<'b, P1, T1>(p1, same1),
        given_back::<'b, P2, T2>(p2, same2),
        body::pushed2(before, p1, p2, after, Ok(())),
        after.buf.is_prefix_of(start.body.buf),
        start.body.byteorder == before.byteorder,
        start.in_bounds(),
        start.sig_idx + 2 <= start.types.len(),
        start.buf_idx == before.buf.len(),
        forall|sig: Seq<char>| #[trigger] T1::is_sig(sig) ==> sig == start.types[start.sig_idx + 0],
        forall|sig: Seq<char>| #[trigger] T2::is_sig(sig) ==> sig == start.types[start.sig_idx + 1],
        body::got_in_turn2::<T1, T2>(start, end, result),
    ensures
        result matches Ok((v1, v2)) && same1(v1) && same2(v2),
        end == (ParserView {
            sig_idx: start.sig_idx + 2,
            buf_idx: after.buf.len() as int,
            ..start
        }),
{
    let middle = first_of2(before, p1, p2, after);
    lemma_pushed_prefix::<P2, T2>(middle, p2, after, same2);
    lemma_prefix_trans(middle.buf, after.buf, start.body.buf);
    let (next, first) = choose|next: ParserView, first: Result<T1, UnmarshalError>|
        {
            &&& #[trigger] body::got::<T1>(start, next, first)
            &&& match first {
                Ok(v1) => exists|others: Result<T2, UnmarshalError>|
                    {
                        &&& #[trigger] body::got::<T2>(next, end, others)
                        &&& match others {
                            Ok(v2) => result == Ok::<(T1, T2), UnmarshalError>((v1, v2)),
                            Err(error) => result == Err::<(T1, T2), UnmarshalError>(error),
                        }
                    },
                Err(error) => result == Err::<(T1, T2), UnmarshalError>(error),
            }
        };
    law_pushed_is_got::<P1, T1>(before, p1, middle, same1, start, next, first);
    lemma_pushed_prefix::<P1, T1>(before, p1, middle, same1);
    assert(middle.buf.len() <= start.body.buf.len());
    let v1 = first->Ok_0;
    let others = choose|others: Result<T2, UnmarshalError>|
        {
            &&& #[trigger] body::got::<T2>(next, end, others)
            &&& match others {
                Ok(v2) => result == Ok::<(T1, T2), UnmarshalError>((v1, v2)),
                Err(error) => result == Err::<(T1, T2), UnmarshalError>(error),
            }
        };
    law_pushed_is_got::<P2, T2>(middle, p2, after, same2, next, end, others);
}

proof fn lemma_pushed3_prefix<'b, P1: Marshal, P2: Marshal, P3: Marshal, T1: Unmarshal<'b>, T2: Unmarshal<'b>, T3: Unmarshal<'b>>(
    before: BodyView,
    p1: P1,
    p2: P2,
    p3: P3,
    after: BodyView,
    same1: spec_fn(T1) -> bool,
    same2: spec_fn(T2) -> bool,
    same3: spec_fn(T3) -> bool,
)
    requires
        given_back::<'b, P1, T1>(p1, same1),
        given_back::<'b, P2, T2>(p2, same2),
        given_back::<'b, P3, T3>(p3, same3),
        body::pushed3(before, p1, p2, p3, after, Ok(())),
    ensures
        before.buf.is_prefix_of(after.buf),
        after.byteorder == before.byteorder,
{
    let middle = first_of3(before, p1, p2, p3, after);
    lemma_pushed_prefix::<P1, T1>(before, p1, middle, same1);
    lemma_pushed2_prefix::<P2, P3, T2, T3>(middle, p2, p3, after, same2, same3);
    lemma_prefix_trans(before.buf, middle.buf, after.buf);
}

/// The body after the first of three parameters was appended.
proof fn first_of3<P1: Marshal, P2: Marshal, P3: Marshal>(
    before: BodyView,
    p1: P1,
    p2: P2,
    p3: P3,
    after: BodyView,
) -> (middle: BodyView)
    requires
        body::pushed3(before, p1, p2, p3, after, Ok(())),
    ensures
        body::pushed(before, p1, middle, Ok(())),
        body::pushed2(middle, p2, p3, after, Ok(())),
{
    let (middle, first) = choose|middle: BodyView, first: Result<(), MarshalError>|
        {
            &&& #[trigger] body::pushed(before, p1, middle, first)
            &&& if first is Ok {
                body::pushed2(middle, p2, p3, after, Ok(()))
            } else {
                after == middle && Ok::<(), MarshalError>(()) == first
            }
        };
    lemma_ok(first);
    middle
}

/// A parser that stands before three parameters gives them back, and then stands behind them.
pub proof fn law_three_pushed_are_got<'b, P1: Marshal, P2: Marshal, P3: Marshal, T1: Unmarshal<'b>, T2: Unmarshal<'b>, T3: Unmarshal<'b>>(
    before: BodyView,
    p1: P1,
    p2: P2,
    p3: P3,
    after: BodyView,
    same1: spec_fn(T1) -> bool,
    same2: spec_fn(T2) -> bool,
    same3: spec_fn(T3) -> bool,
    start: ParserView,
    end: ParserView,
    result: Result<(T1, T2, T3), UnmarshalError>,
)
    requires
        given_back::<'b, P1, T1>(p1, same1),
        given_back::<'b, P2, T2>(p2, same2),
        given_back::<'b, P3, T3>(p3, same3),
        body::pushed3(before, p1, p2, p3, after, Ok(())),
        after.buf.is_prefix_of(start.body.buf),
        start.body.byteorder == before.byteorder,
        start.in_bounds(),
        start.sig_idx + 3 <= start.types.len(),
        start.buf_idx == before.buf.len(),
        forall|sig: Seq<char>| #[trigger] T1::is_sig(sig) ==> sig == start.types[start.sig_idx + 0],
        forall|sig: Seq<char>| #[trigger] T2::is_sig(sig) ==> sig == start.types[start.sig_idx + 1],
        forall|sig: Seq<char>| #[trigger] T3::is_sig(sig) ==> sig == start.types[start.sig_idx + 2],
        body::got_in_turn3::<T1, T2, T3>(start, end, result),
    ensures
        result matches Ok((v1, v2, v3)) && same1(v1) && same2(v2) && same3(v3),
        end == (ParserView {
            sig_idx: start.sig_idx + 3,
            buf_idx: after.buf.len() as int,
            ..start
        }),
{
    let middle = first_of3(before, p1, p2, p3, after);
    lemma_pushed2_prefix::<P2, P3, T2, T3>(middle, p2, p3, after, same2, same3);
    lemma_prefix_trans(middle.buf, after.buf, start.body.buf);
    let (next, first) = choose|next: ParserView, first: Result<T1, UnmarshalError>|
        {
            &&& #[trigger] body::got::<T1>(start, next, first)
            &&& match first {
                Ok(v1) => exists|others: Result<(T2, T3), UnmarshalError>|
                    {
                        &&& #[trigger] body::got_in_turn2::<T2, T3>(next, end, others)
                        &&& match others {
                            Ok((v2, v3)) => result == Ok::<(T1, T2, T3), UnmarshalError>((v1, v2, v3)),
                            Err(error) => result == Err::<(T1, T2, T3), UnmarshalError>(error),
                        }
                    },
                Err(error) => result == Err::<(T1, T2, T3), UnmarshalError>(error),
            }
        };
    law_pushed_is_got::<P1, T1>(before, p1, middle, same1, start, next, first);
    lemma_pushed_prefix::<P1, T1>(before, p1, middle, same1);
    assert(middle.buf.len() <= start.body.buf.len());
    let v1 = first->Ok_0;
    let others = choose|others: Result<(T2, T3), UnmarshalError>|
        {
            &&& #[trigger] body::got_in_turn2::<T2, T3>(next, end, others)
            &&& match others {
                Ok((v2, v3)) => result == Ok::<(T1, T2, T3), UnmarshalError>((v1, v2, v3)),
                Err(error) => result == Err::<(T1, T2, T3), UnmarshalError>(error),
            }
        };
    law_two_pushed_are_got::<P2, P3, T2, T3>(middle, p2, p3, after, same2, same3, next, end, others);
}

proof fn lemma_pushed4_prefix<'b, P1: Marshal, P2: Marshal, P3: Marshal, P4: Marshal, T1: Unmarshal<'b>, T2: Unmarshal<'b>, T3: Unmarshal<'b>, T4: Unmarshal<'b>>(
    before: BodyView,
    p1: P1,
    p2: P2,
    p3: P3,
    p4: P4,
    after: BodyView,
    same1: spec_fn(T1) -> bool,
    same2: spec_fn(T2) -> bool,
    same3: spec_fn(T3) -> bool,
    same4: spec_fn(T4) -> bool,
)
    requires
        given_back::<'b, P1, T1>(p1, same1),
        given_back::<'b, P2, T2>(p2, same2),
        given_back::<'b, P3, T3>(p3, same3),
        given_back::<'b, P4, T4>(p4, same4),
        body::pushed4(before, p1, p2, p3, p4, after, Ok(())),
    ensures
        before.buf.is_prefix_of(after.buf),
        after.byteorder == before.byteorder,
{
    let middle = first_of4(before, p1, p2, p3, p4, after);
    lemma_pushed_prefix::<P1, T1>(before, p1, middle, same1);
    lemma_pushed3_prefix::<P2, P3, P4, T2, T3, T4>(middle, p2, p3, p4, after, same2, same3, same4);
    lemma_prefix_trans(before.buf, middle.buf, after.buf);
}

/// The body after the first of four parameters was appended.
proof fn first_of4<P1: Marshal, P2: Marshal, P3: Marshal, P4: Marshal>(
    before: BodyView,
    p1: P1,
    p2: P2,
    p3: P3,
    p4: P4,
    after: BodyView,
) -> (middle: BodyView)
    requires
        body::pushed4(before, p1, p2, p3, p4, after, Ok(())),
    ensures
        body::pushed(before, p1, middle, Ok(())),
        body::pushed3(middle, p2, p3, p4, after, Ok(())),
{
    let (middle, first) = choose|middle: BodyView, first: Result<(), MarshalError>|
        {
            &&& #[trigger] body::pushed(before, p1, middle, first)
            &&& if first is Ok {
                body::pushed3(middle, p2, p3, p4, after, Ok(()))
            } else {
                after == middle && Ok::<(), MarshalError>(()) == first
            }
        };
    lemma_ok(first);
    middle
}

/// A parser that stands before four parameters gives them back, and then stands behind them.
pub proof fn law_four_pushed_are_got<'b, P1: Marshal, P2: Marshal, P3: Marshal, P4: Marshal, T1: Unmarshal<'b>, T2: Unmarshal<'b>, T3: Unmarshal<'b>, T4: Unmarshal<'b>>(
    before: BodyView,
    p1: P1,
    p2: P2,
    p3: P3,
    p4: P4,
    after: BodyView,
    same1: spec_fn(T1) -> bool,
    same2: spec_fn(T2) -> bool,
    same3: spec_fn(T3) -> bool,
    same4: spec_fn(T4) -> bool,
    start: ParserView,
    end: ParserView,
    result: Result<(T1, T2, T3, T4), UnmarshalError>,
)
    requires
        given_back::<'b, P1, T1>(p1, same1),
        given_back::<'b, P2, T2>(p2, same2),
        given_back::<'b, P3, T3>(p3, same3),
        given_back::<'b, P4, T4>(p4, same4),
        body::pushed4(before, p1, p2, p3, p4, after, Ok(())),
        after.buf.is_prefix_of(start.body.buf),
        start.body.byteorder == before.byteorder,
        start.in_bounds(),
        start.sig_idx + 4 <= start.types.len(),
        start.buf_idx == before.buf.len(),
        forall|sig: Seq<char>| #[trigger] T1::is_sig(sig) ==> sig == start.types[start.sig_idx + 0],
        forall|sig: Seq<char>| #[trigger] T2::is_sig(sig) ==> sig == start.types[start.sig_idx + 1],
        forall|sig: Seq<char>| #[trigger] T3::is_sig(sig) ==> sig == start.types[start.sig_idx + 2],
        forall|sig: Seq<char>| #[trigger] T4::is_sig(sig) ==> sig == start.types[start.sig_idx + 3],
        body::got_in_turn4::<T1, T2, T3, T4>(start, end, result),
    ensures
        result matches Ok((v1, v2, v3, v4)) && same1(v1) && same2(v2) && same3(v3) && same4(v4),
        end == (ParserView {
            sig_idx: start.sig_idx + 4,
            buf_idx: after.buf.len() as int,
            ..start
        }),
{
    let middle = first_of4(before, p1, p2, p3, p4, after);
    lemma_pushed3_prefix::<P2, P3, P4, T2, T3, T4>(middle, p2, p3, p4, after, same2, same3, same4);
    lemma_prefix_trans(middle.buf, after.buf, start.body.buf);
    let (next, first) = choose|next: ParserView, first: Result<T1, UnmarshalError>|
        {
            &&& #[trigger] body::got::<T1>(start, next, first)
            &&& match first {
                Ok(v1) => exists|others: Result<(T2, T3, T4), UnmarshalError>|
                    {
                        &&& #[trigger] body::got_in_turn3::<T2, T3, T4>(next, end, others)
                        &&& match others {
                            Ok((v2, v3, v4)) => result == Ok::<(T1, T2, T3, T4), UnmarshalError>((v1, v2, v3, v4)),
                            Err(error) => result == Err::<(T1, T2, T3, T4), UnmarshalError>(error),
                        }
                    },
                Err(error) => result == Err::<(T1, T2, T3, T4), UnmarshalError>(error),
            }
        };
    law_pushed_is_got::<P1, T1>(before, p1, middle, same1, start, next, first);
    lemma_pushed_prefix::<P1, T1>(before, p1, middle, same1);
    assert(middle.buf.len() <= start.body.buf.len());
    let v1 = first->Ok_0;
    let others = choose|others: Result<(T2, T3, T4), UnmarshalError>|
        {
            &&& #[trigger] body::got_in_turn3::<T2, T3, T4>(next, end, others)
            &&& match others {
                Ok((v2, v3, v4)) => result == Ok::<(T1, T2, T3, T4), UnmarshalError>((v1, v2, v3, v4)),
                Err(error) => result == Err::<(T1, T2, T3, T4), UnmarshalError>(error),
            }
        };
    law_three_pushed_are_got::<P2, P3, P4, T2, T3, T4>(middle, p2, p3, p4, after, same2, same3, same4, next, end, others);
}

proof fn lemma_pushed5_prefix<'b, P1: Marshal, P2: Marshal, P3: Marshal, P4: Marshal, P5: Marshal, T1: Unmarshal<'b>, T2: Unmarshal<'b>, T3: Unmarshal<'b>, T4: Unmarshal<'b>, T5: Unmarshal<'b>>(
    before: BodyView,
    p1: P1,
    p2: P2,
    p3: P3,
    p4: P4,
    p5: P5,
    after: BodyView,
    same1: spec_fn(T1) -> bool,
    same2: spec_fn(T2) -> bool,
    same3: spec_fn(T3) -> bool,
    same4: spec_fn(T4) -> bool,
    same5: spec_fn(T5) -> bool,
)
    requires
        given_back::<'b, P1, T1>(p1, same1),
        given_back::<'b, P2, T2>(p2, same2),
        given_back::<'b, P3, T3>(p3, same3),
        given_back::<'b, P4, T4>(p4, same4),
        given_back::<'b, P5, T5>(p5, same5),
        body::pushed5(before, p1, p2, p3, p4, p5, after, Ok(())),
    ensures
        before.buf.is_prefix_of(after.buf),
        after.byteorder == before.byteorder,
{
    let middle = first_of5(before, p1, p2, p3, p4, p5, after);
    lemma_pushed_prefix::<P1, T1>(before, p1, middle, same1);
    lemma_pushed4_prefix::<P2, P3, P4, P5, T2, T3, T4, T5>(middle, p2, p3, p4, p5, after, same2, same3, same4, same5);
    lemma_prefix_trans(before.buf, middle.buf, after.buf);
}

/// The body after the first of five parameters was appended.
proof fn first_of5<P1: Marshal, P2: Marshal, P3: Marshal, P4: Marshal, P5: Marshal>(
    before: BodyView,
    p1: P1,
    p2: P2,
    p3: P3,
    p4: P4,
    p5: P5,
    after: BodyView,
) -> (middle: BodyView)
    requires
        body::pushed5(before, p1, p2, p3, p4, p5, after, Ok(())),
    ensures
        body::pushed(before, p1, middle, Ok(())),
        body::pushed4(middle, p2, p3, p4, p5, after, Ok(())),
{
    let (middle, first) = choose|middle: BodyView, first: Result<(), MarshalError>|
        {
            &&& #[trigger] body::pushed(before, p1, middle, first)
            &&& if first is Ok {
                body::pushed4(middle, p2, p3, p4, p5, after, Ok(()))
            } else {
                after == middle && Ok::<(), MarshalError>(()) == first
            }
        };
    lemma_ok(first);
    middle
}

/// A parser that stands before five parameters gives them back, and then stands behind them.
pub proof fn law_five_pushed_are_got<'b, P1: Marshal, P2: Marshal, P3: Marshal, P4: Marshal, P5: Marshal, T1: Unmarshal<'b>, T2: Unmarshal<'b>, T3: Unmarshal<'b>, T4: Unmarshal<'b>, T5: Unmarshal<'b>>(
    before: BodyView,
    p1: P1,
    p2: P2,
    p3: P3,
    p4: P4,
    p5: P5,
    after: BodyView,
    same1: spec_fn(T1) -> bool,
    same2: spec_fn(T2) -> bool,
    same3: spec_fn(T3) -> bool,
    same4: spec_fn(T4) -> bool,
    same5: spec_fn(T5) -> bool,
    start: ParserView,
    end: ParserView,
    result: Result<(T1, T2, T3, T4, T5), UnmarshalError>,
)
    requires
        given_back::<'b, P1, T1>(p1, same1),
        given_back::<'b, P2, T2>(p2, same2),
        given_back::<'b, P3, T3>(p3, same3),
        given_back::<'b, P4, T4>(p4, same4),
        given_back::<'b, P5, T5>(p5, same5),
        body::pushed5(before, p1, p2, p3, p4, p5, after, Ok(())),
        after.buf.is_prefix_of(start.body.buf),
        start.body.byteorder == before.byteorder,
        start.in_bounds(),
        start.sig_idx + 5 <= start.types.len(),
        start.buf_idx == before.buf.len(),
        forall|sig: Seq<char>| #[trigger] T1::is_sig(sig) ==> sig == start.types[start.sig_idx + 0],
        forall|sig: Seq<char>| #[trigger] T2::is_sig(sig) ==> sig == start.types[start.sig_idx + 1],
        forall|sig: Seq<char>| #[trigger] T3::is_sig(sig) ==> sig == start.types[start.sig_idx + 2],
        forall|sig: Seq<char>| #[trigger] T4::is_sig(sig) ==> sig == start.types[start.sig_idx + 3],
        forall|sig: Seq<char>| #[trigger] T5::is_sig(sig) ==> sig == start.types[start.sig_idx + 4],
        body::got_in_turn5::<T1, T2, T3, T4, T5>(start, end, result),
    ensures
        result matches Ok((v1, v2, v3, v4, v5)) && same1(v1) && same2(v2) && same3(v3) && same4(v4) && same5(v5),
        end == (ParserView {
            sig_idx: start.sig_idx + 5,
            buf_idx: after.buf.len() as int,
            ..start
        }),
{
    let middle = first_of5(before, p1, p2, p3, p4, p5, after);
    lemma_pushed4_prefix::<P2, P3, P4, P5, T2, T3, T4, T5>(middle, p2, p3, p4, p5, after, same2, same3, same4, same5);
    lemma_prefix_trans(middle.buf, after.buf, start.body.buf);
    let (next, first) = choose|next: ParserView, first: Result<T1, UnmarshalError>|
        {
            &&& #[trigger] body::got::<T1>(start, next, first)
            &&& match first {
                Ok(v1) => exists|others: Result<(T2, T3, T4, T5), UnmarshalError>|
                    {
                        &&& #[trigger] body::got_in_turn4::<T2, T3, T4, T5>(next, end, others)
                        &&& match others {
                            Ok((v2, v3, v4, v5)) => result == Ok::<(T1, T2, T3, T4, T5), UnmarshalError>((v1, v2, v3, v4, v5)),
                            Err(error) => result == Err::<(T1, T2, T3, T4, T5), UnmarshalError>(error),
                        }
                    },
                Err(error) => result == Err::<(T1, T2, T3, T4, T5), UnmarshalError>(error),
            }
        };
    law_pushed_is_got::<P1, T1>(before, p1, middle, same1, start, next, first);
    lemma_pushed_prefix::<P1, T1>(before, p1, middle, same1);
    assert(middle.buf.len() <= start.body.buf.len());
    let v1 = first->Ok_0;
    let others = choose|others: Result<(T2, T3, T4, T5), UnmarshalError>|
        {
            &&& #[trigger] body::got_in_turn4::<T2, T3, T4, T5>(next, end, others)
            &&& match others {
                Ok((v2, v3, v4, v5)) => result == Ok::<(T1, T2, T3, T4, T5), UnmarshalError>((v1, v2, v3, v4, v5)),
                Err(error) => result == Err::<(T1, T2, T3, T4, T5), UnmarshalError>(error),
            }
        };
    law_four_pushed_are_got::<P2, P3, P4, P5, T2, T3, T4, T5>(middle, p2, p3, p4, p5, after, same2, same3, same4, same5, next, end, others);
}

/// A byte, an integer of four bytes, text, a truth value and an integer of eight bytes that were
/// appended to an empty body are given back, and nothing is left. The types of the body are those
/// that a parser has for such a signature.
pub proof fn law_basic_types_are_got<'a, 'b>(
    order: ByteOrder,
    a: u8,
    b: u32,
    c: &'a str,
    d: bool,
    e: u64,
    after: BodyView,
    end: ParserView,
    result: Result<(u8, u32, &'b str, bool, u64), UnmarshalError>,
)
    requires
        encode_utf8(c@).len() <= u32::MAX,
        !c@.contains('\0'),
        body::pushed5(body::empty_body(order), a, b, c, d, e, after, Ok(())),
    ensures
        after.sig == seq!['y', 'u', 's', 'b', 't'],
        wire_format::basic_types(after.sig),
        body::parser_at_start(after).types == wire_format::each_alone(after.sig)
            && body::got_in_turn5::<u8, u32, &'b str, bool, u64>(
            body::parser_at_start(after),
            end,
            result,
        ) ==> {
            &&& result matches Ok((v1, v2, v3, v4, v5)) && v1 == a && v2 == b && v3@ == c@ && v4
                == d && v5 == e
            &&& end.sig_idx == end.types.len()
        },
{
    let before = body::empty_body(order);
    let m1 = first_of5(before, a, b, c, d, e, after);
    let m2 = first_of4(m1, b, c, d, e, after);
    let m3 = first_of3(m2, c, d, e, after);
    let m4 = first_of2(m3, d, e, after);
    assert(after.sig =~= seq!['y', 'u', 's', 'b', 't']);
    law_u8_given_back(a);
    law_u32_given_back(b);
    law_str_given_back(c);
    law_bool_given_back(d);
    law_u64_given_back(e);
    assert(after.buf.is_prefix_of(after.buf)) by {
        assert(after.buf =~= after.buf.subrange(0, after.buf.len() as int));
    }
    lemma_pushed5_prefix::<u8, u32, &'a str, bool, u64, u8, u32, &'b str, bool, u64>(
        before,
        a,
        b,
        c,
        d,
        e,
        after,
        |value: u8| value == a,
        |value: u32| value == b,
        |value: &'b str| value@ == c@,
        |value: bool| value == d,
        |value: u64| value == e,
    );
    if body::parser_at_start(after).types == wire_format::each_alone(after.sig)
        && body::got_in_turn5::<u8, u32, &'b str, bool, u64>(
        body::parser_at_start(after),
        end,
        result,
    ) {
        law_five_pushed_are_got::<u8, u32, &'a str, bool, u64, u8, u32, &'b str, bool, u64>(
            before,
            a,
            b,
            c,
            d,
            e,
            after,
            |value: u8| value == a,
            |value: u32| value == b,
            |value: &'b str| value@ == c@,
            |value: bool| value == d,
            |value: u64| value == e,
            body::parser_at_start(after),
            end,
            result,
        );
    }
}

/// There is one way to write `p`: what it does follows from what was there.
pub open spec fn one_way<P: Marshal>(p: P) -> bool {
    &&& forall|a: Seq<char>, b: Seq<char>| #[trigger] P::is_sig(a) && #[trigger] P::is_sig(b) ==> a == b
    &&& forall|
        order: ByteOrder,
        buf: Seq<u8>,
        fds: Seq<UnixFd>,
        buf1: Seq<u8>,
        fds1: Seq<UnixFd>,
        result1: Result<(), MarshalError>,
        buf2: Seq<u8>,
        fds2: Seq<UnixFd>,
        result2: Result<(), MarshalError>,
    | #[trigger]
        p.marshals(order, buf, fds, buf1, fds1, result1) && #[trigger] p.marshals(
            order,
            buf,
            fds,
            buf2,
            fds2,
            result2,
        ) ==> buf1 == buf2 && fds1 == fds2 && (result1 == result2 || (result1 is Ok && result2
            is Ok))
}

/// There is one way to write numbers, truth values, texts and object paths.
pub proof fn law_one_way<'a>(
    a: u8,
    b: u32,
    c: u64,
    d: bool,
    e: &'a str,
    f: String,
    g: ObjectPath<'a>,
    h: ObjectPathBuf,
)
    ensures
        one_way(a),
        one_way(b),
        one_way(c),
        one_way(d),
        one_way(e),
        one_way(f),
        one_way(g),
        one_way(h),
{
}

proof fn lemma_pushed_one_way<P: Marshal>(
    before: BodyView,
    p: P,
    after1: BodyView,
    result1: Result<(), MarshalError>,
    after2: BodyView,
    result2: Result<(), MarshalError>,
)
    requires
        one_way(p),
        body::pushed(before, p, after1, result1),
        body::pushed(before, p, after2, result2),
    ensures
        after1 == after2,
        result1 == result2,
{
    if result1 is Ok {
        lemma_ok(result1);
        lemma_ok(result2);
        let sig1 = choose|sig: Seq<char>| #[trigger]
            P::is_sig(sig) && after1.sig == before.sig + sig;
        let sig2 = choose|sig: Seq<char>| #[trigger]
            P::is_sig(sig) && after2.sig == before.sig + sig;
        assert(sig1 == sig2);
    }
    assert(after1 =~= after2);
}

/// The outcome of a step, and of those behind it where it succeeded.
pub open spec fn in_turn(
    first: (BodyView, Result<(), MarshalError>),
    others: (BodyView, Result<(), MarshalError>),
) -> (BodyView, Result<(), MarshalError>) {
    if first.1 is Ok {
        others
    } else {
        first
    }
}

/// Appending two parameters at once does what appending them one by one does, up to the first
/// one that cannot be written.
pub proof fn law_push2_is_two_pushes<P1: Marshal, P2: Marshal>(
    before: BodyView,
    p1: P1,
    p2: P2,
    after: BodyView,
    result: Result<(), MarshalError>,
    s1: (BodyView, Result<(), MarshalError>),
    s2: (BodyView, Result<(), MarshalError>),
)
    requires
        one_way(p1),
        one_way(p2),
        body::pushed2(before, p1, p2, after, result),
        body::pushed(before, p1, s1.0, s1.1),
        s1.1 is Ok ==> body::pushed(s1.0, p2, s2.0, s2.1),
    ensures
        (after, result) == in_turn(s1, s2),
{
    let (middle, first) = choose|middle: BodyView, first: Result<(), MarshalError>|
        {
            &&& #[trigger] body::pushed(before, p1, middle, first)
            &&& if first is Ok {
                body::pushed(middle, p2, after, result)
            } else {
                after == middle && result == first
            }
        };
    lemma_pushed_one_way(before, p1, middle, first, s1.0, s1.1);
    if first is Ok {
        lemma_pushed_one_way(middle, p2, after, result, s2.0, s2.1);
    }
}

/// Appending three parameters at once does what appending them one by one does, up to the first
/// one that cannot be written.
pub proof fn law_push3_is_three_pushes<P1: Marshal, P2: Marshal, P3: Marshal>(
    before: BodyView,
    p1: P1,
    p2: P2,
    p3: P3,
    after: BodyView,
    result: Result<(), MarshalError>,
    s1: (BodyView, Result<(), MarshalError>),
    s2: (BodyView, Result<(), MarshalError>),
    s3: (BodyView, Result<(), MarshalError>),
)
    requires
        one_way(p1),
        one_way(p2),
        one_way(p3),
        body::pushed3(before, p1, p2, p3, after, result),
        body::pushed(before, p1, s1.0, s1.1),
        s1.1 is Ok ==> body::pushed(s1.0, p2, s2.0, s2.1),
        s1.1 is Ok && s2.1 is Ok ==> body::pushed(s2.0, p3, s3.0, s3.1),
    ensures
        (after, result) == in_turn(s1, in_turn(s2, s3)),
{
    let (middle, first) = choose|middle: BodyView, first: Result<(), MarshalError>|
        {
            &&& #[trigger] body::pushed(before, p1, middle, first)
            &&& if first is Ok {
                body::pushed2(middle, p2, p3, after, result)
            } else {
                after == middle && result == first
            }
        };
    lemma_pushed_one_way(before, p1, middle, first, s1.0, s1.1);
    if first is Ok {
        law_push2_is_two_pushes(middle, p2, p3, after, result, s2, s3);
    }
}

/// Appending four parameters at once does what appending them one by one does, up to the first
/// one that cannot be written.
pub proof fn law_push4_is_four_pushes<P1: Marshal, P2: Marshal, P3: Marshal, P4: Marshal>(
    before: BodyView,
    p1: P1,
    p2: P2,
    p3: P3,
    p4: P4,
    after: BodyView,
    result: Result<(), MarshalError>,
    s1: (BodyView, Result<(), MarshalError>),
    s2: (BodyView, Result<(), MarshalError>),
    s3: (BodyView, Result<(), MarshalError>),
    s4: (BodyView, Result<(), MarshalError>),
)
    requires
        one_way(p1),
        one_way(p2),
        one_way(p3),
        one_way(p4),
        body::pushed4(before, p1, p2, p3, p4, after, result),
        body::pushed(before, p1, s1.0, s1.1),
        s1.1 is Ok ==> body::pushed(s1.0, p2, s2.0, s2.1),
        s1.1 is Ok && s2.1 is Ok ==> body::pushed(s2.0, p3, s3.0, s3.1),
        s1.1 is Ok && s2.1 is Ok && s3.1 is Ok ==> body::pushed(s3.0, p4, s4.0, s4.1),
    ensures
        (after, result) == in_turn(s1, in_turn(s2, in_turn(s3, s4))),
{
    let (middle, first) = choose|middle: BodyView, first: Result<(), MarshalError>|
        {
            &&& #[trigger] body::pushed(before, p1, middle, first)
            &&& if first is Ok {
                body::pushed3(middle, p2, p3, p4, after, result)
            } else {
                after == middle && result == first
            }
        };
    lemma_pushed_one_way(before, p1, middle, first, s1.0, s1.1);
    if first is Ok {
        law_push3_is_three_pushes(middle, p2, p3, p4, after, result, s2, s3, s4);
    }
}

/// Appending five parameters at once does what appending them one by one does, up to the first
/// one that cannot be written.
pub proof fn law_push5_is_five_pushes<P1: Marshal, P2: Marshal, P3: Marshal, P4: Marshal, P5: Marshal>(
    before: BodyView,
    p1: P1,
    p2: P2,
    p3: P3,
    p4: P4,
    p5: P5,
    after: BodyView,
    result: Result<(), MarshalError>,
    s1: (BodyView, Result<(), MarshalError>),
    s2: (BodyView, Result<(), MarshalError>),
    s3: (BodyView, Result<(), MarshalError>),
    s4: (BodyView, Result<(), MarshalError>),
    s5: (BodyView, Result<(), MarshalError>),
)
    requires
        one_way(p1),
        one_way(p2),
        one_way(p3),
        one_way(p4),
        one_way(p5),
        body::pushed5(before, p1, p2, p3, p4, p5, after, result),
        body::pushed(before, p1, s1.0, s1.1),
        s1.1 is Ok ==> body::pushed(s1.0, p2, s2.0, s2.1),
        s1.1 is Ok && s2.1 is Ok ==> body::pushed(s2.0, p3, s3.0, s3.1),
        s1.1 is Ok && s2.1 is Ok && s3.1 is Ok ==> body::pushed(s3.0, p4, s4.0, s4.1),
        s1.1 is Ok && s2.1 is Ok && s3.1 is Ok && s4.1 is Ok ==> body::pushed(s4.0, p5, s5.0, s5.1),
    ensures
        (after, result) == in_turn(s1, in_turn(s2, in_turn(s3, in_turn(s4, s5)))),
{
    let (middle, first) = choose|middle: BodyView, first: Result<(), MarshalError>|
        {
            &&& #[trigger] body::pushed(before, p1, middle, first)
            &&& if first is Ok {
                body::pushed4(middle, p2, p3, p4, p5, after, result)
            } else {
                after == middle && result == first
            }
        };
    lemma_pushed_one_way(before, p1, middle, first, s1.0, s1.1);
    if first is Ok {
        law_push4_is_four_pushes(middle, p2, p3, p4, p5, after, result, s2, s3, s4, s5);
    }
}

/// The step `i` is the outcome of appending the parameter `i` to what the step before it left.
pub open spec fn is_step<P: Marshal>(
    before: BodyView,
    params: Seq<P>,
    steps: Seq<(BodyView, Result<(), MarshalError>)>,
    i: int,
) -> bool {
    body::pushed(
        if i == 0 {
            before
        } else {
            steps[i - 1].0
        },
        params[i],
        steps[i].0,
        steps[i].1,
    )
}

/// The steps of appending the parameters one by one, from `before` on: each step is the outcome of
/// appending one parameter to what the step before it left, and only the last one may fail. Where
/// it does not, all parameters were appended.
pub open spec fn one_by_one<P: Marshal>(
    before: BodyView,
    params: Seq<P>,
    steps: Seq<(BodyView, Result<(), MarshalError>)>,
) -> bool {
    &&& steps.len() <= params.len()
    &&& forall|i: int| 0 <= i < steps.len() ==> #[trigger] is_step(before, params, steps, i)
    &&& forall|i: int| 0 <= i < steps.len() - 1 ==> (#[trigger] steps[i]).1 is Ok
    &&& steps.len() == params.len() || (steps.len() > 0 && steps.last().1 is Err)
}

/// Appending parameters at once does what appending them one by one does, up to the first one
/// that cannot be written. Without parameters nothing changes.
pub proof fn law_push_params_is_single_pushes<P: Marshal>(
    before: BodyView,
    params: Seq<P>,
    after: BodyView,
    result: Result<(), MarshalError>,
    steps: Seq<(BodyView, Result<(), MarshalError>)>,
)
    requires
        forall|i: int| 0 <= i < params.len() ==> one_way(#[trigger] params[i]),
        body::pushed_all(before, params, 0, after, result),
        one_by_one(before, params, steps),
    ensures
        (after, result) == if steps.len() == 0 {
            (before, Ok::<(), MarshalError>(()))
        } else {
            steps.last()
        },
{
    lemma_push_params_from(before, params, 0, before, after, result, steps);
}

proof fn lemma_push_params_from<P: Marshal>(
    before: BodyView,
    params: Seq<P>,
    from: int,
    now: BodyView,
    after: BodyView,
    result: Result<(), MarshalError>,
    steps: Seq<(BodyView, Result<(), MarshalError>)>,
)
    requires
        forall|i: int| 0 <= i < params.len() ==> one_way(#[trigger] params[i]),
        one_by_one(before, params, steps),
        0 <= from <= steps.len(),
        now == if from == 0 {
            before
        } else {
            steps[from - 1].0
        },
        from > 0 ==> steps[from - 1].1 is Ok,
        body::pushed_all(now, params, from, after, result),
    ensures
        (after, result) == if steps.len() == 0 {
            (before, Ok::<(), MarshalError>(()))
        } else {
            steps.last()
        },
    decreases params.len() - from,
{
    if from >= params.len() {
        lemma_ok(result);
        if from > 0 {
            lemma_ok(steps[from - 1].1);
        }
    } else {
        assert(from < steps.len()) by {
            if from == steps.len() {
                assert(steps.last() == steps[from - 1]);
            }
        }
        let (middle, first) = choose|middle: BodyView, first: Result<(), MarshalError>|
            {
                &&& #[trigger] body::pushed(now, params[from], middle, first)
                &&& if first is Ok {
                    body::pushed_all(middle, params, from + 1, after, result)
                } else {
                    after == middle && result == first
                }
            };
        let step = steps[from];
        assert(is_step(before, params, steps, from));
        assert(one_way(params[from]));
        lemma_pushed_one_way(now, params[from], middle, first, step.0, step.1);
        if first is Ok {
            lemma_push_params_from(before, params, from + 1, middle, after, result, steps);
        } else if from < steps.len() - 1 {
            assert(steps[from].1 is Ok);
        }
    }
}

/// A signature, `count` times over.
pub open spec fn repeated(sig: Seq<char>, count: nat) -> Seq<char>
    decreases count,
{
    if count == 0 {
        seq![]
    } else {
        repeated(sig, (count - 1) as nat) + sig
    }
}

/// Appending parameters at once appends the signature of their type for each of them, and not
/// that of an array.
pub proof fn law_push_params_signature<P: Marshal>(
    before: BodyView,
    params: Seq<P>,
    after: BodyView,
    sig: Seq<char>,
)
    requires
        forall|other: Seq<char>| #[trigger] P::is_sig(other) ==> other == sig,
        body::pushed_all(before, params, 0, after, Ok(())),
    ensures
        after.sig == before.sig + repeated(sig, params.len()),
        after.byteorder == before.byteorder,
{
    assert(before.sig + repeated(sig, 0) =~= before.sig);
    lemma_push_params_signature(before, params, 0, before, after, sig);
}

proof fn lemma_push_params_signature<P: Marshal>(
    before: BodyView,
    params: Seq<P>,
    from: int,
    now: BodyView,
    after: BodyView,
    sig: Seq<char>,
)
    requires
        forall|other: Seq<char>| #[trigger] P::is_sig(other) ==> other == sig,
        0 <= from <= params.len(),
        now.sig == before.sig + repeated(sig, from as nat),
        now.byteorder == before.byteorder,
        body::pushed_all(now, params, from, after, Ok(())),
    ensures
        after.sig == before.sig + repeated(sig, params.len()),
        after.byteorder == before.byteorder,
    decreases params.len() - from,
{
    if from < params.len() {
        let (middle, first) = choose|middle: BodyView, first: Result<(), MarshalError>|
            {
                &&& #[trigger] body::pushed(now, params[from], middle, first)
                &&& if first is Ok {
                    body::pushed_all(middle, params, from + 1, after, Ok(()))
                } else {
                    after == middle && Ok::<(), MarshalError>(()) == first
                }
            };
        let own = choose|own: Seq<char>| #[trigger]
            P::is_sig(own) && middle.sig == now.sig + own;
        assert(own == sig);
        assert(middle.sig =~= before.sig + repeated(sig, (from + 1) as nat));
        lemma_push_params_signature(before, params, from + 1, middle, after, sig);
    }
}

} // verus!
