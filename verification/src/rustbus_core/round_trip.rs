//! What was written is what is read back.
use vstd::prelude::*;
use vstd::utf8::*;

use super::marshal;
use super::message_builder::hdr_var;
use super::message_builder::hdr_var::FieldValue;
use super::message_builder::header;
use super::message_builder::header::HeaderView;
use super::message_builder;
use super::message_builder::MessageView;
use super::path;
use super::wire_format;
use super::wire_format::{Header, UnmarshalError};
use super::ByteOrder;
use crate::text;
use crate::utils;

verus! {

/// `buf` holds the bytes of `written` from `from` on, up to its end.
pub open spec fn holds(buf: Seq<u8>, written: Seq<u8>, from: int) -> bool {
    &&& written.len() <= buf.len()
    &&& forall|i: int| from <= i < written.len() ==> #[trigger] buf[i] == written[i]
}

proof fn lemma_holds_part(buf: Seq<u8>, written: Seq<u8>, part: Seq<u8>, from: int, part_from: int)
    requires
        holds(buf, written, from),
        0 <= from <= part_from,
        part.is_prefix_of(written),
    ensures
        holds(buf, part, part_from),
{
    assert forall|i: int| part_from <= i < part.len() implies #[trigger] buf[i] == part[i] by {
        assert(buf[i] == written[i]);
        assert(part =~= written.subrange(0, part.len() as int));
    }
}

proof fn lemma_read_padding(buf: Seq<u8>, before: Seq<u8>, align: int)
    requires
        align > 0,
        holds(buf, wire_format::padded(before, align), before.len() as int),
    ensures
        wire_format::aligned_at(buf, before.len() as int, align) == Ok::<int, UnmarshalError>(
            wire_format::padded(before, align).len() as int,
        ),
{
    utils::lemma_align_up(before.len() as int, align);
    let padded = wire_format::padded(before, align);
    assert forall|i: int| before.len() <= i < padded.len() implies buf[i] == 0 by {
        assert(buf[i] == padded[i]);
    }
}

proof fn lemma_read_u32(buf: Seq<u8>, before: Seq<u8>, number: u32, order: ByteOrder)
    requires
        holds(buf, before + utils::u32_bytes(number, order), before.len() as int),
    ensures
        wire_format::u32_at(buf, before.len() as int, order) == Ok::<(int, u32), UnmarshalError>(
            (before.len() as int + 4, number),
        ),
{
    utils::lemma_u32_round_trip(number, order);
    let written = before + utils::u32_bytes(number, order);
    let at = before.len() as int;
    assert(buf.subrange(at, at + 4) =~= utils::u32_bytes(number, order)) by {
        assert forall|i: int| 0 <= i < 4 implies buf.subrange(at, at + 4)[i] == utils::u32_bytes(
            number,
            order,
        )[i] by {
            assert(buf[at + i] == written[at + i]);
        }
    }
}

proof fn lemma_read_string(buf: Seq<u8>, before: Seq<u8>, s: Seq<char>, order: ByteOrder)
    requires
        holds(buf, before + wire_format::string_bytes(s, order), before.len() as int),
        encode_utf8(s).len() <= u32::MAX,
        !s.contains('\0'),
    ensures
        wire_format::string_at(buf, before.len() as int, order) == Ok::<
            (int, Seq<char>),
            UnmarshalError,
        >(((before + wire_format::string_bytes(s, order)).len() as int, s)),
{
    let bytes = encode_utf8(s);
    let length = utils::u32_bytes(bytes.len() as u32, order);
    let written = before + wire_format::string_bytes(s, order);
    utils::lemma_u32_round_trip(bytes.len() as u32, order);
    assert((before + length).is_prefix_of(written)) by {
        assert(before + length =~= written.subrange(0, (before + length).len() as int));
    }
    lemma_holds_part(buf, written, before + length, before.len() as int, before.len() as int);
    lemma_read_u32(buf, before, bytes.len() as u32, order);
    let start = before.len() as int + 4;
    assert(buf.subrange(start, start + bytes.len()) =~= bytes) by {
        assert forall|i: int| 0 <= i < bytes.len() implies buf.subrange(
            start,
            start + bytes.len(),
        )[i] == bytes[i] by {
            assert(buf[start + i] == written[start + i]);
        }
    }
    text::lemma_encode_utf8_valid(s);
}

proof fn lemma_read_signature(buf: Seq<u8>, before: Seq<u8>, s: Seq<char>)
    requires
        holds(buf, before + wire_format::signature_bytes(s), before.len() as int),
        encode_utf8(s).len() <= 255,
    ensures
        wire_format::signature_at(buf, before.len() as int) == Ok::<
            (int, Seq<char>),
            UnmarshalError,
        >(((before + wire_format::signature_bytes(s)).len() as int, s)),
{
    let bytes = encode_utf8(s);
    let written = before + wire_format::signature_bytes(s);
    let at = before.len() as int;
    assert(buf[at] == written[at]);
    assert(buf[at] == bytes.len());
    assert(buf.subrange(at + 1, at + 1 + bytes.len()) =~= bytes) by {
        assert forall|i: int| 0 <= i < bytes.len() implies buf.subrange(
            at + 1,
            at + 1 + bytes.len(),
        )[i] == bytes[i] by {
            assert(buf[at + 1 + i] == written[at + 1 + i]);
        }
    }
    text::lemma_encode_utf8_valid(s);
}

/// An integer that is written behind `buf` is read from there again, whatever follows it.
pub proof fn law_u32_read_back(buf: Seq<u8>, number: u32, order: ByteOrder, rest: Seq<u8>)
    ensures
        ({
            let written = wire_format::padded(buf, 4) + utils::u32_bytes(number, order);
            marshal::aligned_u32_at(written + rest, buf.len() as int, order) == Ok::<
                (int, u32),
                UnmarshalError,
            >((written.len() as int, number))
        }),
{
    let padded = wire_format::padded(buf, 4);
    let written = padded + utils::u32_bytes(number, order);
    let all = written + rest;
    utils::lemma_align_up(buf.len() as int, 4);
    lemma_read_padding(all, buf, 4);
    lemma_read_u32(all, padded, number, order);
}

/// An integer of eight bytes that is written behind `buf` is read from there again, whatever
/// follows it.
pub proof fn law_u64_read_back(buf: Seq<u8>, number: u64, order: ByteOrder, rest: Seq<u8>)
    ensures
        ({
            let written = wire_format::padded(buf, 8) + utils::u64_bytes(number, order);
            marshal::aligned_u64_at(written + rest, buf.len() as int, order) == Ok::<
                (int, u64),
                UnmarshalError,
            >((written.len() as int, number))
        }),
{
    let padded = wire_format::padded(buf, 8);
    let bytes = utils::u64_bytes(number, order);
    let all = padded + bytes + rest;
    utils::lemma_align_up(buf.len() as int, 8);
    utils::lemma_u64_round_trip(number, order);
    lemma_read_padding(all, buf, 8);
    assert(all.subrange(padded.len() as int, padded.len() as int + 8) =~= bytes);
}

/// Text that is written behind `buf` is read from there again, whatever follows it. Text that
/// holds a NUL is refused when it is read.
pub proof fn law_text_read_back(buf: Seq<u8>, s: Seq<char>, order: ByteOrder, rest: Seq<u8>)
    requires
        encode_utf8(s).len() <= u32::MAX,
        !s.contains('\0'),
    ensures
        ({
            let written = wire_format::padded(buf, 4) + wire_format::string_bytes(s, order);
            marshal::aligned_string_at(written + rest, buf.len() as int, order) == Ok::<
                (int, Seq<char>),
                UnmarshalError,
            >((written.len() as int, s))
        }),
{
    let padded = wire_format::padded(buf, 4);
    let written = padded + wire_format::string_bytes(s, order);
    let all = written + rest;
    utils::lemma_align_up(buf.len() as int, 4);
    lemma_read_padding(all, buf, 4);
    lemma_read_string(all, padded, s, order);
}

/// An object path that is written behind `buf` is read from there again, whatever follows it.
pub proof fn law_object_path_read_back(buf: Seq<u8>, s: Seq<char>, order: ByteOrder, rest: Seq<u8>)
    requires
        path::valid_path(s),
        encode_utf8(s).len() <= u32::MAX,
    ensures
        ({
            let written = wire_format::padded(buf, 4) + wire_format::string_bytes(s, order);
            marshal::object_path_at(written + rest, buf.len() as int, order) == Ok::<
                (int, Seq<char>),
                UnmarshalError,
            >((written.len() as int, s))
        }),
{
    lemma_path_no_nul(s);
    law_text_read_back(buf, s, order, rest);
}

proof fn lemma_path_no_nul(s: Seq<char>)
    requires
        path::valid_path(s),
    ensures
        !s.contains('\0'),
{
    path::lemma_valid_path(s);
    assert forall|i: int| 0 <= i < s.len() implies s[i] != '\0' by {
        assert(path::fault_at(s, i) is None);
    }
}

proof fn lemma_dotted_no_nul(s: Seq<char>, dash: bool, leading_digit: bool)
    requires
        wire_format::dotted_name(s, dash, leading_digit),
    ensures
        !s.contains('\0'),
{
    let parts = text::split_on(s, '.');
    assert forall|i: int| 0 <= i < s.len() implies s[i] != '\0' by {
        if s[i] != '.' {
            text::lemma_split_on_covers(s, '.', i);
            let (p, j) = choose|p: int, j: int|
                0 <= p < parts.len() && 0 <= j < parts[p].len() && s[i] == #[trigger] parts[p][j];
            let part = parts[p];
            assert(wire_format::alphanumeric(part[j]) || part[j] == '_' || part[j] == '-');
        }
    }
}

/// A field that can be written holds no NUL.
proof fn lemma_text_no_nul(code: u8, s: Seq<char>)
    requires
        code == 2 || code == 3 || code == 4 || code == 6 || code == 7,
        header::field_error((code, FieldValue::Text(s))) is None,
    ensures
        !s.contains('\0'),
{
    if code == 3 {
        assert forall|i: int| 0 <= i < s.len() implies s[i] != '\0' by {
            assert(wire_format::alphanumeric(s[i]) || s[i] == '_');
        }
    } else if code == 6 || code == 7 {
        if s.len() > 0 && s[0] == ':' {
            lemma_dotted_no_nul(s.skip(1), true, true);
            assert forall|i: int| 0 <= i < s.len() implies s[i] != '\0' by {
                if i > 0 {
                    assert(s.skip(1)[i - 1] == s[i]);
                    assert(!s.skip(1).contains('\0'));
                }
            }
        } else {
            lemma_dotted_no_nul(s, true, false);
        }
    } else {
        lemma_dotted_no_nul(s, false, false);
    }
}

/// A field that can be written, and whose length fits, is one that can be read.
pub open spec fn readable_field(field: (u8, FieldValue)) -> bool {
    match field.1 {
        FieldValue::Path(s) => {
            &&& field.0 == 1
            &&& path::valid_path(s)
            &&& encode_utf8(s).len() <= u32::MAX
        },
        FieldValue::Text(s) => {
            &&& field.0 == 2 || field.0 == 3 || field.0 == 4 || field.0 == 6 || field.0 == 7
            &&& header::field_error(field) is None
            &&& encode_utf8(s).len() <= u32::MAX
        },
        FieldValue::Number(_) => field.0 == 5 || field.0 == 9,
        FieldValue::Signature(s) => {
            &&& field.0 == 8
            &&& wire_format::parsed_signature(s) is Ok
            &&& encode_utf8(s).len() <= 255
        },
        FieldValue::Other => false,
    }
}

proof fn lemma_one_char(c: char)
    requires
        c <= '\u{7f}',
    ensures
        encode_utf8(seq![c]).len() == 1,
{
    assert(is_ascii_chars(seq![c]));
    is_ascii_chars_encode_utf8(seq![c]);
}

proof fn lemma_prefix_concat(a: Seq<u8>, b: Seq<u8>)
    ensures
        a.is_prefix_of(a + b),
{
    assert(a =~= (a + b).subrange(0, a.len() as int));
}

/// A variant that was written behind `before` is read from there.
#[verifier::rlimit(40)]
#[verifier::spinoff_prover]
proof fn lemma_read_value(buf: Seq<u8>, before: Seq<u8>, field: (u8, FieldValue), order: ByteOrder)
    requires
        readable_field(field),
        holds(buf, hdr_var::with_value(before, field.1, order), before.len() as int),
    ensures
        hdr_var::value_at(buf, before.len() as int, order) == Ok::<
            (int, FieldValue),
            UnmarshalError,
        >((hdr_var::with_value(before, field.1, order).len() as int, field.1)),
{
    let at = before.len() as int;
    let written = hdr_var::with_value(before, field.1, order);
    let c = match field.1 {
        FieldValue::Path(_) => 'o',
        FieldValue::Text(_) => 's',
        FieldValue::Number(_) => 'u',
        _ => 'g',
    };
    let signed = before + wire_format::signature_bytes(seq![c]);
    let padded = wire_format::padded(signed, 4);
    utils::lemma_align_up(signed.len() as int, 4);
    lemma_one_char(c);
    lemma_prefix_concat(signed, wire_format::zeros(padded.len() - signed.len()));
    match field.1 {
        FieldValue::Path(s) => {
            lemma_prefix_concat(padded, wire_format::string_bytes(s, order));
        },
        FieldValue::Text(s) => {
            lemma_prefix_concat(padded, wire_format::string_bytes(s, order));
        },
        FieldValue::Number(n) => {
            lemma_prefix_concat(padded, utils::u32_bytes(n, order));
        },
        FieldValue::Signature(s) => {
            lemma_prefix_concat(signed, wire_format::signature_bytes(s));
        },
        FieldValue::Other => {},
    }
    assert(signed.is_prefix_of(written));
    lemma_holds_part(buf, written, signed, at, at);
    lemma_read_signature(buf, before, seq![c]);
    assert(seq!['o'][0] != seq!['s'][0] && seq!['o'][0] != seq!['u'][0] && seq!['o'][0]
        != seq!['g'][0] && seq!['s'][0] != seq!['u'][0] && seq!['s'][0] != seq!['g'][0]
        && seq!['u'][0] != seq!['g'][0]);
    if !(field.1 is Signature) {
        assert(padded.is_prefix_of(written));
        lemma_holds_part(buf, written, padded, at, signed.len() as int);
        lemma_read_padding(buf, signed, 4);
        lemma_holds_part(buf, written, written, at, padded.len() as int);
    } else {
        lemma_holds_part(buf, written, written, at, signed.len() as int);
    }
    match field.1 {
        FieldValue::Path(s) => {
            lemma_path_no_nul(s);
            lemma_read_string(buf, padded, s, order);
        },
        FieldValue::Text(s) => {
            lemma_text_no_nul(field.0, s);
            lemma_read_string(buf, padded, s, order);
        },
        FieldValue::Number(n) => {
            lemma_read_u32(buf, padded, n, order);
        },
        FieldValue::Signature(s) => {
            lemma_read_signature(buf, signed, s);
        },
        FieldValue::Other => {},
    }
}

/// A field that was written behind `before` is read from there.
proof fn lemma_read_field(buf: Seq<u8>, before: Seq<u8>, field: (u8, FieldValue), order: ByteOrder)
    requires
        readable_field(field),
        holds(buf, header::with_field(before, field, order), before.len() as int),
    ensures
        header::field_at(buf, before.len() as int, order) == Ok::<
            (int, u8, FieldValue),
            UnmarshalError,
        >((header::with_field(before, field, order).len() as int, field.0, field.1)),
{
    let at = before.len() as int;
    let padded = wire_format::padded(before, 8);
    let coded = padded.push(field.0);
    let written = header::with_field(before, field, order);
    utils::lemma_align_up(at, 8);
    header::lemma_with_value_prefix(coded, field.1, order);
    assert(padded =~= written.subrange(0, padded.len() as int)) by {
        assert forall|i: int| 0 <= i < padded.len() implies padded[i] == written[i] by {
            assert(coded[i] == written.subrange(0, coded.len() as int)[i]);
        }
    }
    lemma_holds_part(buf, written, padded, at, at);
    lemma_read_padding(buf, before, 8);
    assert(buf[padded.len() as int] == written[padded.len() as int]);
    assert(written[padded.len() as int] == written.subrange(
        0,
        coded.len() as int,
    )[padded.len() as int]);
    lemma_holds_part(buf, written, written, at, coded.len() as int);
    lemma_read_value(buf, coded, field, order);
}

/// The fields from `index` on that were written behind `start` are read from there.
proof fn lemma_read_fields(
    buf: Seq<u8>,
    start: Seq<u8>,
    fields: Seq<(u8, FieldValue)>,
    index: int,
    order: ByteOrder,
)
    requires
        0 <= index <= fields.len(),
        forall|i: int| 0 <= i < fields.len() ==> readable_field(#[trigger] fields[i]),
        holds(buf, header::with_fields(start, fields, order), start.len() as int),
    ensures
        header::fields_at(
            buf,
            header::with_fields(start, fields.take(index), order).len() as int,
            header::with_fields(start, fields, order).len() as int,
            order,
        ) == Ok::<Seq<(u8, FieldValue)>, UnmarshalError>(fields.skip(index)),
    decreases fields.len() - index,
{
    let all = header::with_fields(start, fields, order);
    let before = header::with_fields(start, fields.take(index), order);
    if index == fields.len() {
        assert(fields.take(index) =~= fields);
        assert(fields.skip(index) =~= seq![]);
    } else {
        let field = fields[index];
        let next = fields.take(index + 1);
        assert(next.drop_last() =~= fields.take(index));
        let after = header::with_fields(start, next, order);
        assert(after == header::with_field(before, field, order));
        header::lemma_with_fields_prefix(start, fields, index + 1, order);
        header::lemma_with_fields_length(start, fields.take(index), order);
        lemma_holds_part(buf, all, after, start.len() as int, before.len() as int);
        assert(readable_field(fields[index]));
        lemma_read_field(buf, before, field, order);
        header::lemma_with_field_length(before, field, order);
        lemma_read_fields(buf, start, fields, index + 1, order);
        assert(fields.skip(index) =~= seq![field] + fields.skip(index + 1));
    }
}

/// The last field of a run of fields that is split in two.
pub(crate) proof fn lemma_last_field_concat(a: Seq<(u8, FieldValue)>, b: Seq<(u8, FieldValue)>)
    ensures
        forall|code: u8| #[trigger]
            header::last_field(a + b, code) == match header::last_field(b, code) {
                Some(value) => Some(value),
                None => header::last_field(a, code),
            },
    decreases b.len(),
{
    if b.len() == 0 {
        assert(a + b =~= a);
    } else {
        lemma_last_field_concat(a, b.drop_last());
        assert((a + b).drop_last() =~= a + b.drop_last());
        assert((a + b).last() == b.last());
        assert forall|code: u8| #[trigger]
            header::last_field(a + b, code) == match header::last_field(b, code) {
                Some(value) => Some(value),
                None => header::last_field(a, code),
            } by {
            assert(header::last_field(a + b.drop_last(), code) == match header::last_field(
                b.drop_last(),
                code,
            ) {
                Some(value) => Some(value),
                None => header::last_field(a, code),
            });
        }
    }
}

pub(crate) proof fn lemma_last_field_opt(code: u8, value: Option<FieldValue>)
    ensures
        forall|c: u8| #[trigger]
            header::last_field(header::opt_field(code, value), c) == if c == code {
                value
            } else {
                None
            },
{
    if let Some(v) = value {
        let one = seq![(code, v)];
        assert(one.drop_last() =~= seq![]);
        assert forall|c: u8| #[trigger]
            header::last_field(header::opt_field(code, value), c) == if c == code {
                value
            } else {
                None
            } by {
            assert(header::last_field(seq![], c) is None);
        }
    }
}

/// The fields of a message make the header again from which they were taken.
#[verifier::rlimit(60)]
#[verifier::spinoff_prover]
proof fn lemma_header_of_fields(h: HeaderView, body_sig: Option<Seq<char>>, fd_count: u32)
    requires
        h.response_serial != Some(0u32),
    ensures
        ({
            let fields = header::header_fields(h, body_sig, fd_count);
            &&& header::right_kinds(fields)
            &&& header::header_of(fields) == (HeaderView {
                serial: None,
                signature: body_sig,
                num_fds: if fd_count != 0 {
                    Some(fd_count)
                } else {
                    None
                },
                ..h
            })
        }),
{
    let object = match h.object {
        Some(s) => Some(FieldValue::Path(s)),
        None => None,
    };
    let text_value = |s: Option<Seq<char>>|
        match s {
            Some(s) => Some(FieldValue::Text(s)),
            None => None,
        };
    let response_serial = match h.response_serial {
        Some(n) => Some(FieldValue::Number(n)),
        None => None,
    };
    let signature = match body_sig {
        Some(s) => Some(FieldValue::Signature(s)),
        None => None,
    };
    let descriptors = if fd_count != 0 {
        Some(FieldValue::Number(fd_count))
    } else {
        None
    };
    let f1 = header::opt_field(1, object);
    let f2 = header::opt_text_field(2, h.interface);
    let f3 = header::opt_text_field(3, h.member);
    let f4 = header::opt_text_field(4, h.error_name);
    let f5 = header::opt_field(5, response_serial);
    let f6 = header::opt_text_field(6, h.destination);
    let f7 = header::opt_text_field(7, h.sender);
    let f8 = header::opt_field(8, signature);
    let f9 = header::opt_field(9, descriptors);
    let fields = header::header_fields(h, body_sig, fd_count);
    assert(fields == f1 + f2 + f3 + f4 + f5 + f6 + f7 + f8 + f9);
    assert(f2 == header::opt_field(2, text_value(h.interface)));
    assert(f3 == header::opt_field(3, text_value(h.member)));
    assert(f4 == header::opt_field(4, text_value(h.error_name)));
    assert(f6 == header::opt_field(6, text_value(h.destination)));
    assert(f7 == header::opt_field(7, text_value(h.sender)));
    lemma_last_field_opt(1, object);
    lemma_last_field_opt(2, text_value(h.interface));
    lemma_last_field_opt(3, text_value(h.member));
    lemma_last_field_opt(4, text_value(h.error_name));
    lemma_last_field_opt(5, response_serial);
    lemma_last_field_opt(6, text_value(h.destination));
    lemma_last_field_opt(7, text_value(h.sender));
    lemma_last_field_opt(8, signature);
    lemma_last_field_opt(9, descriptors);
    lemma_last_field_concat(f1, f2);
    lemma_last_field_concat(f1 + f2, f3);
    lemma_last_field_concat(f1 + f2 + f3, f4);
    lemma_last_field_concat(f1 + f2 + f3 + f4, f5);
    lemma_last_field_concat(f1 + f2 + f3 + f4 + f5, f6);
    lemma_last_field_concat(f1 + f2 + f3 + f4 + f5 + f6, f7);
    lemma_last_field_concat(f1 + f2 + f3 + f4 + f5 + f6 + f7, f8);
    lemma_last_field_concat(f1 + f2 + f3 + f4 + f5 + f6 + f7 + f8, f9);
    assert forall|code: u8| 1 <= code <= 9 implies header::right_kind(
        code,
        #[trigger] header::last_field(fields, code),
    ) by {
        assert(header::last_field(f9, code) is None || code == 9);
    }
    assert(header::header_of(fields) =~= (HeaderView {
        serial: None,
        signature: body_sig,
        num_fds: if fd_count != 0 {
            Some(fd_count)
        } else {
            None
        },
        ..h
    }));
}

proof fn lemma_all_valid(fields: Seq<(u8, FieldValue)>)
    requires
        header::valid_prefix(fields) == fields.len(),
    ensures
        forall|i: int|
            0 <= i < fields.len() ==> header::field_error(#[trigger] fields[i]) is None,
    decreases fields.len(),
{
    if fields.len() > 0 {
        let front = fields.drop_last();
        lemma_valid_prefix_bound(front);
        lemma_all_valid(front);
        assert forall|i: int| 0 <= i < fields.len() implies header::field_error(
            #[trigger] fields[i],
        ) is None by {
            if i < front.len() {
                assert(fields[i] == front[i]);
            }
        }
    }
}

proof fn lemma_valid_prefix_bound(fields: Seq<(u8, FieldValue)>)
    ensures
        0 <= header::valid_prefix(fields) <= fields.len(),
    decreases fields.len(),
{
    if fields.len() > 0 {
        lemma_valid_prefix_bound(fields.drop_last());
    }
}

/// The code and the value of a field of a message fit together.
spec fn known_field(field: (u8, FieldValue), body_sig: Option<Seq<char>>) -> bool {
    match field.1 {
        FieldValue::Path(_) => field.0 == 1,
        FieldValue::Text(_) => field.0 == 2 || field.0 == 3 || field.0 == 4 || field.0 == 6
            || field.0 == 7,
        FieldValue::Number(_) => field.0 == 5 || field.0 == 9,
        FieldValue::Signature(s) => field.0 == 8 && body_sig == Some(s),
        FieldValue::Other => false,
    }
}

spec fn all_known(fields: Seq<(u8, FieldValue)>, body_sig: Option<Seq<char>>) -> bool {
    forall|i: int| 0 <= i < fields.len() ==> known_field(#[trigger] fields[i], body_sig)
}

proof fn lemma_known_concat(
    a: Seq<(u8, FieldValue)>,
    b: Seq<(u8, FieldValue)>,
    body_sig: Option<Seq<char>>,
)
    requires
        all_known(a, body_sig),
        all_known(b, body_sig),
    ensures
        all_known(a + b, body_sig),
{
    assert forall|i: int| 0 <= i < (a + b).len() implies known_field(
        #[trigger] (a + b)[i],
        body_sig,
    ) by {
        if i < a.len() {
            assert(known_field(a[i], body_sig));
        } else {
            assert(known_field(b[i - a.len()], body_sig));
        }
    }
}

proof fn lemma_known_fields(h: HeaderView, body_sig: Option<Seq<char>>, fd_count: u32)
    ensures
        all_known(header::header_fields(h, body_sig, fd_count), body_sig),
{
    let object = match h.object {
        Some(s) => Some(FieldValue::Path(s)),
        None => None,
    };
    let response_serial = match h.response_serial {
        Some(n) => Some(FieldValue::Number(n)),
        None => None,
    };
    let signature = match body_sig {
        Some(s) => Some(FieldValue::Signature(s)),
        None => None,
    };
    let descriptors = if fd_count != 0 {
        Some(FieldValue::Number(fd_count))
    } else {
        None
    };
    let f1 = header::opt_field(1, object);
    let f2 = header::opt_text_field(2, h.interface);
    let f3 = header::opt_text_field(3, h.member);
    let f4 = header::opt_text_field(4, h.error_name);
    let f5 = header::opt_field(5, response_serial);
    let f6 = header::opt_text_field(6, h.destination);
    let f7 = header::opt_text_field(7, h.sender);
    let f8 = header::opt_field(8, signature);
    let f9 = header::opt_field(9, descriptors);
    lemma_known_concat(f1, f2, body_sig);
    lemma_known_concat(f1 + f2, f3, body_sig);
    lemma_known_concat(f1 + f2 + f3, f4, body_sig);
    lemma_known_concat(f1 + f2 + f3 + f4, f5, body_sig);
    lemma_known_concat(f1 + f2 + f3 + f4 + f5, f6, body_sig);
    lemma_known_concat(f1 + f2 + f3 + f4 + f5 + f6, f7, body_sig);
    lemma_known_concat(f1 + f2 + f3 + f4 + f5 + f6 + f7, f8, body_sig);
    lemma_known_concat(f1 + f2 + f3 + f4 + f5 + f6 + f7 + f8, f9, body_sig);
}

/// A field is at least as long as the text in it.
proof fn lemma_field_length(before: Seq<u8>, field: (u8, FieldValue), order: ByteOrder)
    ensures
        match field.1 {
            FieldValue::Path(s) => encode_utf8(s).len() <= header::with_field(
                before,
                field,
                order,
            ).len(),
            FieldValue::Text(s) => encode_utf8(s).len() <= header::with_field(
                before,
                field,
                order,
            ).len(),
            _ => true,
        },
{
}

proof fn lemma_last_field_valid(fields: Seq<(u8, FieldValue)>, code: u8)
    requires
        forall|i: int|
            0 <= i < fields.len() ==> header::field_error(#[trigger] fields[i]) is None,
    ensures
        header::last_field(fields, code) matches Some(value) ==> header::field_error(
            (code, value),
        ) is None,
    decreases fields.len(),
{
    if fields.len() > 0 {
        assert(header::field_error(fields[fields.len() - 1]) is None);
        let front = fields.drop_last();
        assert forall|i: int| 0 <= i < front.len() implies header::field_error(
            #[trigger] front[i],
        ) is None by {
            assert(front[i] == fields[i]);
        }
        lemma_last_field_valid(front, code);
    }
}

/// The header that fields make is valid where each of them can be written.
proof fn lemma_valid_header(fields: Seq<(u8, FieldValue)>)
    requires
        forall|i: int|
            0 <= i < fields.len() ==> header::field_error(#[trigger] fields[i]) is None,
        header::right_kinds(fields),
        header::header_of(fields).signature matches Some(s) ==> wire_format::parsed_signature(
            s,
        ) is Ok,
    ensures
        header::valid_header(header::header_of(fields)),
{
    lemma_last_field_valid(fields, 1);
    lemma_last_field_valid(fields, 2);
    lemma_last_field_valid(fields, 3);
    lemma_last_field_valid(fields, 4);
    lemma_last_field_valid(fields, 6);
    lemma_last_field_valid(fields, 7);
    assert(header::right_kind(1, header::last_field(fields, 1)));
    assert(header::right_kind(2, header::last_field(fields, 2)));
    assert(header::right_kind(3, header::last_field(fields, 3)));
    assert(header::right_kind(4, header::last_field(fields, 4)));
    assert(header::right_kind(6, header::last_field(fields, 6)));
    assert(header::right_kind(7, header::last_field(fields, 7)));
}

/// Where the parts of a header stand in its bytes.
proof fn lemma_header_layout(start: Seq<u8>, fields: Seq<(u8, FieldValue)>, order: ByteOrder)
    requires
        start.len() == 16,
        header::header_bytes(start, fields, order).len() <= u32::MAX,
    ensures
        ({
            let all = header::with_fields(start, fields, order);
            let bytes = header::header_bytes(start, fields, order);
            &&& bytes.take(12) == start.take(12)
            &&& 16 <= all.len() <= bytes.len()
            &&& marshal::aligned_u32_at(bytes, 12, order) == Ok::<(int, u32), UnmarshalError>(
                (16int, (all.len() - 16) as u32),
            )
            &&& holds(bytes, all, 16)
            &&& utils::align_up(all.len() as int, 8) == bytes.len()
            &&& wire_format::aligned_at(bytes, all.len() as int, 8) == Ok::<int, UnmarshalError>(
                bytes.len() as int,
            )
        }),
{
    let all = header::with_fields(start, fields, order);
    let bytes = header::header_bytes(start, fields, order);
    header::lemma_with_fields_length(start, fields, order);
    let length = (all.len() - 16) as u32;
    utils::lemma_u32_round_trip(length, order);
    let filled = all.take(12) + utils::u32_bytes(length, order) + all.skip(16);
    utils::lemma_align_up(all.len() as int, 8);
    assert(filled.len() == all.len());
    assert(bytes == wire_format::padded(filled, 8));
    assert(bytes.take(12) =~= start.take(12)) by {
        assert forall|i: int| 0 <= i < 12 implies bytes.take(12)[i] == start.take(12)[i] by {
            assert(all[i] == all.take(16)[i]);
        }
    }
    assert(holds(bytes, all.take(12) + utils::u32_bytes(length, order), 12));
    assert(all.take(12).len() == 12);
    lemma_read_u32(bytes, all.take(12), length, order);
    assert(utils::align_up(12, 4) == 12);
    assert(wire_format::aligned_at(bytes, 12, 4) == Ok::<int, UnmarshalError>(12int));
    lemma_read_padding(bytes, filled, 8);
}

/// What reading gives back of a header: the serial number stands in the fixed part, and the
/// signature and the number of file descriptors are those of the body.
pub open spec fn received_header(msg: MessageView) -> HeaderView {
    HeaderView {
        serial: None,
        signature: if msg.body.buf.len() > 0 {
            Some(msg.body.sig)
        } else {
            None
        },
        num_fds: if msg.body.fds.len() > 0 {
            Some(msg.body.fds.len() as u32)
        } else {
            None
        },
        ..msg.dynheader
    }
}

/// What reading gives back of the fixed part of a header.
pub open spec fn fixed_part(msg: MessageView, serial: u32) -> Result<Header, UnmarshalError> {
    if msg.typ is Invalid {
        Err(UnmarshalError::InvalidType)
    } else {
        Ok(
            Header {
                byteorder: msg.body.byteorder,
                typ: msg.typ,
                flags: msg.flags,
                version: 1,
                body_len: msg.body.buf.len() as u32,
                serial,
            },
        )
    }
}

/// The sizes of a message fit the integers in which they are written, and its signature is an
/// accepted one.
pub open spec fn sendable(msg: MessageView, serial: u32) -> bool {
    &&& message_builder::message_header(msg, serial).len() <= u32::MAX
    &&& msg.body.buf.len() <= u32::MAX
    &&& msg.body.fds.len() <= u32::MAX
    &&& msg.body.buf.len() > 0 ==> {
        &&& wire_format::parsed_signature(msg.body.sig) is Ok
        &&& encode_utf8(msg.body.sig).len() <= 255
    }
}

/// The header that is written for a message reads back as the header of that message, and
/// nothing is left over. The fixed part of a message without a kind is refused.
pub proof fn law_header_round_trip(msg: MessageView, serial: u32)
    requires
        message_builder::writable_header(msg),
        sendable(msg, serial),
        msg.dynheader.response_serial != Some(0u32),
    ensures
        ({
            let bytes = message_builder::message_header(msg, serial);
            let order = msg.body.byteorder;
            &&& wire_format::header_at_start(bytes) == fixed_part(msg, serial)
            &&& header::dynamic_header_at(bytes, 12, order) == Ok::<
                (int, HeaderView),
                UnmarshalError,
            >((bytes.len() as int, received_header(msg)))
        }),
{
    let order = msg.body.byteorder;
    let start = message_builder::message_start(msg, serial);
    let fields = message_builder::message_fields(msg);
    let all = header::with_fields(start, fields, order);
    let bytes = message_builder::message_header(msg, serial);
    let body_len = msg.body.buf.len() as u32;
    let fd_count = msg.body.fds.len() as u32;
    let body_sig = if msg.body.buf.len() > 0 {
        Some(msg.body.sig)
    } else {
        None
    };
    lemma_header_start(msg, serial);
    lemma_header_layout(start, fields, order);
    lemma_fixed_part(bytes, msg, serial);
    lemma_known_fields(msg.dynheader, body_sig, fd_count);
    lemma_all_readable(start, fields, body_sig, order);
    lemma_header_of_fields(msg.dynheader, body_sig, fd_count);
    lemma_all_valid(fields);
    lemma_valid_header(fields);
    lemma_read_dynamic_header(start, fields, order);
}

/// The length of a header follows from the length of its fields.
pub proof fn lemma_header_length(msg: MessageView, serial: u32)
    requires
        sendable(msg, serial),
    ensures
        ({
            let bytes = message_builder::message_header(msg, serial);
            let length = utils::u32_value(bytes.subrange(12, 16), msg.body.byteorder);
            &&& bytes.len() >= 16
            &&& utils::align_up(16 + length, 8) == bytes.len()
        }),
{
    lemma_header_start(msg, serial);
    lemma_header_layout(
        message_builder::message_start(msg, serial),
        message_builder::message_fields(msg),
        msg.body.byteorder,
    );
}

/// Fields that make a valid header are read back from the header in which they are written.
proof fn lemma_read_dynamic_header(
    start: Seq<u8>,
    fields: Seq<(u8, FieldValue)>,
    order: ByteOrder,
)
    requires
        start.len() == 16,
        header::header_bytes(start, fields, order).len() <= u32::MAX,
        forall|i: int| 0 <= i < fields.len() ==> readable_field(#[trigger] fields[i]),
        header::right_kinds(fields),
        header::valid_header(header::header_of(fields)),
    ensures
        ({
            let bytes = header::header_bytes(start, fields, order);
            header::dynamic_header_at(bytes, 12, order) == Ok::<(int, HeaderView), UnmarshalError>(
                (bytes.len() as int, header::header_of(fields)),
            )
        }),
{
    reveal(header::dynamic_header_at);
    let bytes = header::header_bytes(start, fields, order);
    let end = header::with_fields(start, fields, order).len() as int;
    let length = (end - 16) as u32;
    lemma_header_layout(start, fields, order);
    assert(header::fields_at(bytes, 16, end, order) == Ok::<
        Seq<(u8, FieldValue)>,
        UnmarshalError,
    >(fields)) by {
        lemma_read_fields(bytes, start, fields, 0, order);
        assert(fields.take(0) =~= seq![]);
        assert(fields.skip(0) =~= fields);
        assert(header::with_fields(start, seq![], order) == start);
    }
    assert(16 + length == end);
}

/// Fields that fit in a header, and that can be written, can be read.
proof fn lemma_all_readable(
    start: Seq<u8>,
    fields: Seq<(u8, FieldValue)>,
    body_sig: Option<Seq<char>>,
    order: ByteOrder,
)
    requires
        start.len() == 16,
        header::header_bytes(start, fields, order).len() <= u32::MAX,
        header::valid_prefix(fields) == fields.len(),
        all_known(fields, body_sig),
        body_sig matches Some(s) ==> {
            &&& wire_format::parsed_signature(s) is Ok
            &&& encode_utf8(s).len() <= 255
        },
    ensures
        forall|i: int| 0 <= i < fields.len() ==> readable_field(#[trigger] fields[i]),
{
    lemma_header_layout(start, fields, order);
    lemma_all_valid(fields);
    assert forall|i: int| 0 <= i < fields.len() implies readable_field(#[trigger] fields[i]) by {
        assert(known_field(fields[i], body_sig));
        assert(header::field_error(fields[i]) is None);
        let next = fields.take(i + 1);
        assert(next.drop_last() =~= fields.take(i));
        header::lemma_with_fields_prefix(start, fields, i + 1, order);
        lemma_field_length(header::with_fields(start, fields.take(i), order), fields[i], order);
    }
}

proof fn lemma_header_start(msg: MessageView, serial: u32)
    ensures
        message_builder::message_start(msg, serial).len() == 16,
{
    let order = msg.body.byteorder;
    utils::lemma_u32_round_trip(msg.body.buf.len() as u32, order);
    utils::lemma_u32_round_trip(serial, order);
    utils::lemma_u32_round_trip(0, order);
}

/// The fixed part of a header reads back.
proof fn lemma_fixed_part(bytes: Seq<u8>, msg: MessageView, serial: u32)
    requires
        bytes.len() >= 12,
        bytes.take(12) == message_builder::message_start(msg, serial).take(12),
    ensures
        wire_format::header_at_start(bytes) == fixed_part(msg, serial),
{
    let order = msg.body.byteorder;
    let body_len = msg.body.buf.len() as u32;
    let start = message_builder::message_start(msg, serial);
    utils::lemma_u32_round_trip(body_len, order);
    utils::lemma_u32_round_trip(serial, order);
    lemma_header_start(msg, serial);
    assert forall|i: int| 0 <= i < 12 implies #[trigger] bytes[i] == start[i] by {
        assert(bytes.take(12)[i] == start.take(12)[i]);
    }
    assert(bytes[0] == header::order_byte(order));
    assert(bytes[1] == header::type_byte(msg.typ));
    assert(bytes[2] == msg.flags);
    assert(bytes[3] == 1);
    assert(bytes.subrange(4, 8) =~= utils::u32_bytes(body_len, order));
    assert(bytes.subrange(8, 12) =~= utils::u32_bytes(serial, order));
}

} // verus!
