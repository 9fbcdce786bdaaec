//! How deep the values in a message nest, and whether they can be measured. A variant holds a value
//! of any type, other variants among them, so that the signature of a message does not bound it.
use vstd::prelude::*;

use super::marshal;
use super::wire_format;
use super::wire_format::{SignatureError, UnmarshalError};
use super::ByteOrder;
use crate::text;

verus! {

/// How deep arrays, structures and variants may nest around a variant.
pub const MAX_DEPTH: usize = 64;

/// Where a value ends.
pub enum Reach {
    /// It ends here.
    End(int),
    /// The bytes are no such value.
    Refused,
    /// It nests too deep to be looked at.
    TooDeep,
    /// The length of a text in it cannot be counted on this machine.
    TooLarge,
}

/// The length of every text, and of what goes with it, can be counted on this machine.
pub open spec fn counts_all() -> bool {
    u32::MAX + 5 <= usize::MAX
}

/// A value of type `t` holds no variant, and no text whose length could not be counted.
pub open spec fn is_plain(t: Seq<char>) -> bool {
    !t.contains('v') && (counts_all() || !(t.contains('s') || t.contains('o')))
}

/// Where the values of an array lie that starts at `offset`, its length before them. They are
/// aligned to `align`.
pub open spec fn items_at(buf: Seq<u8>, offset: int, order: ByteOrder, align: int) -> Option<
    (int, int),
> {
    match wire_format::aligned_at(buf, offset, 4) {
        Err(_) => None,
        Ok(start) => match wire_format::u32_at(buf, start, order) {
            Err(_) => None,
            Ok((first, length)) => if buf.len() - first < length {
                None
            } else {
                match wire_format::aligned_at(buf, first, align) {
                    Err(_) => None,
                    Ok(first) => if buf.len() - first < length {
                        None
                    } else {
                        Some((first, first + length))
                    },
                }
            },
        },
    }
}

/// The length of the text at `offset`, behind its padding, where there is one.
pub open spec fn text_length_at(buf: Seq<u8>, offset: int, order: ByteOrder) -> Option<u32> {
    match marshal::aligned_u32_at(buf, offset, order) {
        Ok((_, length)) => Some(length),
        Err(_) => None,
    }
}

/// What values are aligned to whose type, which is not plain, starts with `c`.
pub open spec fn first_align(c: char) -> int {
    if c == 'v' {
        1
    } else if c == '(' {
        8
    } else {
        4
    }
}

/// How many more arrays, structures and variants may nest inside a value of type `t`. Those
/// around no variant are not counted, because signatures bound them.
pub open spec fn room_inside(t: Seq<char>, room: nat) -> nat {
    if t.contains('v') {
        (room - 1) as nat
    } else {
        room
    }
}

/// Where the value of type `t` at `offset` ends, if no more than `room` arrays, structures and
/// variants nest around a variant in it.
pub open spec fn reach(order: ByteOrder, buf: Seq<u8>, offset: int, t: Seq<char>, room: nat) -> Reach
    decreases room, t.len(), 4int, 0int,
{
    if is_plain(t) {
        reach_leaf(order, buf, offset, t)
    } else if t.contains('v') && room == 0 {
        Reach::TooDeep
    } else if t.len() == 1 && t[0] == 'v' {
        match wire_format::signature_at(buf, offset) {
            Err(_) => Reach::Refused,
            Ok((start, inner)) => match wire_format::parsed_signature(inner) {
                Err(_) => Reach::Refused,
                Ok(types) => if types.len() == 1 {
                    reach(order, buf, start, types[0], (room - 1) as nat)
                } else {
                    Reach::Refused
                },
            },
        }
    } else if t.len() == 1 {
        match text_length_at(buf, offset, order) {
            None => Reach::Refused,
            Some(length) => if length + 5 > usize::MAX {
                Reach::TooLarge
            } else {
                reach_leaf(order, buf, offset, t)
            },
        }
    } else if t[0] == '(' {
        match wire_format::parsed_signature(t.subrange(1, t.len() - 1)) {
            Err(_) => Reach::TooDeep,
            Ok(types) => reach_item(order, buf, offset, types, 8, t.len(), room_inside(t, room)),
        }
    } else if t[0] == 'a' && t[1] == '{' && t.len() > 4 {
        match items_at(buf, offset, order, 8) {
            None => Reach::Refused,
            Some((start, end)) => reach_items(
                order,
                buf.subrange(0, end),
                start,
                seq![t.subrange(2, 3), t.subrange(3, t.len() - 1)],
                8,
                t.len(),
                room_inside(t, room),
            ),
        }
    } else if t[0] == 'a' {
        match items_at(buf, offset, order, first_align(t[1])) {
            None => Reach::Refused,
            Some((start, end)) => reach_items(
                order,
                buf.subrange(0, end),
                start,
                seq![t.subrange(1, t.len() as int)],
                1,
                t.len(),
                room_inside(t, room),
            ),
        }
    } else {
        Reach::TooDeep
    }
}

/// Where a value ends that can be checked as a whole.
pub open spec fn reach_leaf(order: ByteOrder, buf: Seq<u8>, offset: int, t: Seq<char>) -> Reach {
    if wire_format::parsed_signature(t) == Ok::<Seq<Seq<char>>, SignatureError>(seq![t]) {
        match wire_format::value_size(order is LittleEndian, offset, buf, t, 0) {
            Ok(size) => Reach::End(offset + size),
            Err(_) => Reach::Refused,
        }
    } else {
        Reach::TooDeep
    }
}

/// Where values of the types from `index` on end that follow each other. The types are shorter
/// than `size`.
pub open spec fn reach_fields(
    order: ByteOrder,
    buf: Seq<u8>,
    offset: int,
    types: Seq<Seq<char>>,
    index: int,
    size: nat,
    room: nat,
) -> Reach
    decreases room, size, 1int, types.len() - index,
{
    if index >= types.len() {
        Reach::End(offset)
    } else if types[index].len() >= size {
        Reach::TooDeep
    } else {
        match reach(order, buf, offset, types[index], room) {
            Reach::End(end) => reach_fields(order, buf, end, types, index + 1, size, room),
            other => other,
        }
    }
}

/// Where values of the types end that follow each other, behind padding up to `align`.
pub open spec fn reach_item(
    order: ByteOrder,
    buf: Seq<u8>,
    offset: int,
    types: Seq<Seq<char>>,
    align: int,
    size: nat,
    room: nat,
) -> Reach
    decreases room, size, 2int, 0int,
{
    match wire_format::aligned_at(buf, offset, align) {
        Err(_) => Reach::Refused,
        Ok(start) => reach_fields(order, buf, start, types, 0, size, room),
    }
}

/// Where the items end that fill `buf` from `offset` on.
pub open spec fn reach_items(
    order: ByteOrder,
    buf: Seq<u8>,
    offset: int,
    types: Seq<Seq<char>>,
    align: int,
    size: nat,
    room: nat,
) -> Reach
    decreases room, size, 3int, buf.len() - offset,
{
    if offset >= buf.len() {
        Reach::End(offset)
    } else {
        match reach_item(order, buf, offset, types, align, size, room) {
            Reach::End(end) => if end <= offset || end > buf.len() {
                Reach::TooDeep
            } else {
                reach_items(order, buf, end, types, align, size, room)
            },
            other => other,
        }
    }
}

/// Why the bytes cannot be checked for a value of type `t` at `offset`: a variant lies deeper than
/// it may, or the length of a text cannot be counted.
#[verifier::opaque]
pub open spec fn depth_error(order: ByteOrder, buf: Seq<u8>, offset: int, t: Seq<char>) -> Option<
    UnmarshalError,
> {
    if is_plain(t) {
        None
    } else {
        match reach(order, buf, offset, t, MAX_DEPTH as nat) {
            Reach::TooDeep => Some(UnmarshalError::NestedTooDeep),
            Reach::TooLarge => Some(UnmarshalError::TooLarge),
            _ => None,
        }
    }
}

/// Where a value was found to end.
enum Found {
    End(usize),
    Refused,
    TooDeep,
    TooLarge,
}

impl Found {
    spec fn is(self, reach: Reach) -> bool {
        match self {
            Found::End(end) => reach == Reach::End(end as int),
            Found::Refused => reach is Refused,
            Found::TooDeep => reach is TooDeep,
            Found::TooLarge => reach is TooLarge,
        }
    }
}

/// Whether a type holds the given one.
fn holds_type(t: &str, c: char) -> (holds: bool)
    ensures
        holds == t@.contains(c),
{
    match text::split_once(t, c) {
        Some((before, after)) => {
            assert(t@[before@.len() as int] == c);
            true
        },
        None => false,
    }
}

/// Whether a value of the type can be checked as a whole.
fn plain(t: &str) -> (is: bool)
    ensures
        is == is_plain(t@),
{
    if holds_type(t, 'v') {
        return false;
    }
    usize::MAX - 5 >= u32::MAX as usize || !(holds_type(t, 's') || holds_type(t, 'o'))
}

/// Finds the values of an array.
fn find_items(buf: &[u8], offset: usize, order: ByteOrder, align: usize) -> (items: Option<
    (usize, usize),
>)
    requires
        offset <= buf@.len(),
        align > 0,
    ensures
        match items {
            Some((start, end)) => start <= end <= buf@.len() && items_at(
                buf@,
                offset as int,
                order,
                align as int,
            ) == Some((start as int, end as int)),
            None => items_at(buf@, offset as int, order, align as int) is None,
        },
{
    assert(buf@.len() == buf.len());
    let padding: usize = wire_format::align_offset(4, buf, offset).ok()?;
    let start: usize = offset + padding;
    let length: usize = wire_format::read_u32(order, buf, start).ok()? as usize;
    let first: usize = start + 4;
    if buf.len() - first < length {
        return None;
    }
    let padding: usize = wire_format::align_offset(align, buf, first).ok()?;
    let first: usize = first + padding;
    if buf.len() - first < length {
        return None;
    }
    Some((first, first + length))
}

/// Finds the length of a text.
fn find_text_length(buf: &[u8], offset: usize, order: ByteOrder) -> (length: Option<u32>)
    requires
        offset <= buf@.len(),
    ensures
        length == text_length_at(buf@, offset as int, order),
{
    assert(buf@.len() == buf.len());
    let padding: usize = wire_format::align_offset(4, buf, offset).ok()?;
    let length: u32 = wire_format::read_u32(order, buf, offset + padding).ok()?;
    Some(length)
}

/// Checks a value as a whole.
fn find_leaf_end(order: ByteOrder, buf: &[u8], offset: usize, t: &str) -> (found: Found)
    requires
        offset <= buf@.len(),
        depth_error(order, buf@, offset as int, t@) is None || wire_format::parsed_signature(t@)
            != Ok::<Seq<Seq<char>>, SignatureError>(seq![t@]),
    ensures
        found.is(reach_leaf(order, buf@, offset as int, t@)),
        found matches Found::End(end) ==> end <= buf@.len(),
{
    assert(buf@.len() == buf.len());
    let types = match wire_format::parse_signature(t) {
        Ok(types) => types,
        Err(_) => {
            return Found::TooDeep;
        },
    };
    if types.len() != 1 || !text::str_eq(types[0].as_str(), t) {
        proof {
            let views = types@.map_values(|t: String| t@);
            assert(views.len() == 1 ==> views[0] == types@[0]@);
            assert(views != seq![t@]) by {
                assert(seq![t@][0] == t@);
            }
        }
        return Found::TooDeep;
    }
    assert(types@.map_values(|t: String| t@) =~= seq![t@]);
    match wire_format::validate_value(order, offset, buf, t, 0) {
        Ok(size) => Found::End(offset + size),
        Err(_) => Found::Refused,
    }
}

/// Finds the end of a value.
fn find_end(order: ByteOrder, buf: &[u8], offset: usize, t: &str, room: usize) -> (found: Found)
    requires
        offset <= buf@.len(),
    ensures
        found.is(reach(order, buf@, offset as int, t@, room as nat)),
        found matches Found::End(end) ==> end <= buf@.len(),
    decreases room, t@.len(), 3int,
{
    reveal(depth_error);
    assert(buf@.len() == buf.len());
    if plain(t) {
        return find_leaf_end(order, buf, offset, t);
    }
    let has_variant = holds_type(t, 'v');
    if has_variant && room == 0 {
        return Found::TooDeep;
    }
    let inside: usize = if has_variant {
        room - 1
    } else {
        room
    };
    let length: usize = t.unicode_len();
    let first = t.get_char(0);
    if length == 1 {
        if first != 'v' {
            return match find_text_length(buf, offset, order) {
                None => Found::Refused,
                Some(length) => if length as usize > usize::MAX - 5 {
                    Found::TooLarge
                } else {
                    find_leaf_end(order, buf, offset, t)
                },
            };
        }
        let (size, inner) = match wire_format::unmarshal_signature(buf, offset) {
            Ok(read) => read,
            Err(_) => {
                return Found::Refused;
            },
        };
        return match wire_format::parse_signature(inner) {
            Ok(types) => if types.len() == 1 {
                assert(types@.map_values(|t: String| t@)[0] == types@[0]@);
                find_end(order, buf, offset + size, types[0].as_str(), room - 1)
            } else {
                Found::Refused
            },
            Err(_) => Found::Refused,
        };
    }
    if first == '(' {
        return match wire_format::parse_signature(t.substring_char(1, length - 1)) {
            Ok(types) => {
                let ghost views = types@.map_values(|t: String| t@);
                let fields = type_texts(&types);
                assert(text::texts(fields@) =~= views);
                find_item_end(order, buf, offset, &fields, 8, length, inside)
            },
            Err(_) => Found::TooDeep,
        };
    }
    if first != 'a' {
        return Found::TooDeep;
    }
    let mut types: Vec<&str> = Vec::new();
    let c = t.get_char(1);
    if c == '{' && length > 4 {
        types.push(t.substring_char(2, 3));
        types.push(t.substring_char(3, length - 1));
        assert(text::texts(types@) =~= seq![t@.subrange(2, 3), t@.subrange(3, t@.len() - 1)]);
        match find_items(buf, offset, order, 8) {
            Some((start, end)) => {
                let front = vstd::slice::slice_subrange(buf, 0, end);
                find_items_end(order, front, start, &types, 8, length, inside)
            },
            None => Found::Refused,
        }
    } else {
        types.push(t.substring_char(1, length));
        assert(text::texts(types@) =~= seq![t@.subrange(1, t@.len() as int)]);
        let align: usize = if c == 'v' {
            1
        } else if c == '(' {
            8
        } else {
            4
        };
        match find_items(buf, offset, order, align) {
            Some((start, end)) => {
                let front = vstd::slice::slice_subrange(buf, 0, end);
                find_items_end(order, front, start, &types, 1, length, inside)
            },
            None => Found::Refused,
        }
    }
}

/// The types, borrowed.
fn type_texts(types: &Vec<String>) -> (borrowed: Vec<&str>)
    ensures
        text::texts(borrowed@) == types@.map_values(|t: String| t@),
{
    let mut borrowed: Vec<&str> = Vec::new();
    let mut i: usize = 0;
    while i < types.len()
        invariant
            i <= types@.len(),
            borrowed@.len() == i,
            forall|j: int| 0 <= j < i ==> (#[trigger] borrowed@[j])@ == types@[j]@,
        decreases types@.len() - i,
    {
        borrowed.push(types[i].as_str());
        i += 1;
    }
    assert(text::texts(borrowed@) =~= types@.map_values(|t: String| t@));
    borrowed
}

/// Finds the end of values that follow each other, behind padding.
fn find_item_end(
    order: ByteOrder,
    buf: &[u8],
    offset: usize,
    types: &Vec<&str>,
    align: usize,
    size: usize,
    room: usize,
) -> (found: Found)
    requires
        offset <= buf@.len(),
        align > 0,
    ensures
        found.is(
            reach_item(
                order,
                buf@,
                offset as int,
                text::texts(types@),
                align as int,
                size as nat,
                room as nat,
            ),
        ),
        found matches Found::End(end) ==> end <= buf@.len(),
    decreases room, size, 1int,
{
    assert(buf@.len() == buf.len());
    let padding: usize = match wire_format::align_offset(align, buf, offset) {
        Ok(padding) => padding,
        Err(_) => {
            return Found::Refused;
        },
    };
    let ghost texts = text::texts(types@);
    let ghost start: int = offset + padding;
    let mut end: usize = offset + padding;
    let mut i: usize = 0;
    while i < types.len()
        invariant
            i <= types@.len(),
            end <= buf@.len(),
            texts == text::texts(types@),
            wire_format::aligned_at(buf@, offset as int, align as int) == Ok::<
                int,
                UnmarshalError,
            >(start),
            reach_fields(order, buf@, start, texts, 0, size as nat, room as nat) == reach_fields(
                order,
                buf@,
                end as int,
                texts,
                i as int,
                size as nat,
                room as nat,
            ),
        decreases types@.len() - i,
    {
        assert(texts[i as int] == types@[i as int]@);
        if types[i].unicode_len() >= size {
            return Found::TooDeep;
        }
        match find_end(order, buf, end, types[i], room) {
            Found::End(next) => {
                end = next;
            },
            Found::Refused => {
                return Found::Refused;
            },
            Found::TooDeep => {
                return Found::TooDeep;
            },
            Found::TooLarge => {
                return Found::TooLarge;
            },
        }
        i += 1;
    }
    Found::End(end)
}

/// Finds the end of the items that fill `buf`.
fn find_items_end(
    order: ByteOrder,
    buf: &[u8],
    offset: usize,
    types: &Vec<&str>,
    align: usize,
    size: usize,
    room: usize,
) -> (found: Found)
    requires
        offset <= buf@.len(),
        align > 0,
    ensures
        found.is(
            reach_items(
                order,
                buf@,
                offset as int,
                text::texts(types@),
                align as int,
                size as nat,
                room as nat,
            ),
        ),
        found matches Found::End(end) ==> end <= buf@.len(),
    decreases room, size, 2int,
{
    let ghost texts = text::texts(types@);
    let mut end: usize = offset;
    while end < buf.len()
        invariant
            end <= buf@.len(),
            align > 0,
            texts == text::texts(types@),
            reach_items(
                order,
                buf@,
                offset as int,
                texts,
                align as int,
                size as nat,
                room as nat,
            ) == reach_items(
                order,
                buf@,
                end as int,
                texts,
                align as int,
                size as nat,
                room as nat,
            ),
        decreases buf@.len() - end,
    {
        match find_item_end(order, buf, end, types, align, size, room) {
            Found::End(next) => {
                if next <= end {
                    return Found::TooDeep;
                }
                end = next;
            },
            Found::Refused => {
                return Found::Refused;
            },
            Found::TooDeep => {
                return Found::TooDeep;
            },
            Found::TooLarge => {
                return Found::TooLarge;
            },
        }
    }
    Found::End(end)
}

/// Whether the bytes can be checked for a value of type `t` at `offset`.
pub(crate) fn check_depth(order: ByteOrder, buf: &[u8], offset: usize, t: &str) -> (result: Result<
    (),
    UnmarshalError,
>)
    requires
        offset <= buf@.len(),
    ensures
        match result {
            Ok(()) => depth_error(order, buf@, offset as int, t@) is None,
            Err(error) => depth_error(order, buf@, offset as int, t@) == Some(error),
        },
{
    reveal(depth_error);
    if plain(t) {
        return Ok(());
    }
    match find_end(order, buf, offset, t, MAX_DEPTH) {
        Found::TooDeep => Err(UnmarshalError::NestedTooDeep),
        Found::TooLarge => Err(UnmarshalError::TooLarge),
        _ => Ok(()),
    }
}

// ---------------------------------------------------------------------------
// What too deep means
// ---------------------------------------------------------------------------

/// At `at` stands the signature with this one character.
pub open spec fn one_type_at(buf: Seq<u8>, at: int, c: char) -> bool {
    &&& 0 <= at
    &&& at + 3 <= buf.len()
    &&& buf[at] == 1
    &&& buf[at + 1] as int == c as int
    &&& buf[at + 2] == 0
}

/// At `at` start so many variants, each of which holds the next one.
pub open spec fn variants_at(buf: Seq<u8>, at: int, count: nat) -> bool {
    forall|i: int| 0 <= i < count ==> #[trigger] one_type_at(buf, at + 3 * i, 'v')
}

proof fn lemma_one_type(buf: Seq<u8>, at: int, c: char)
    requires
        one_type_at(buf, at, c),
        c == 'v' || c == 'y',
    ensures
        wire_format::signature_at(buf, at) == Ok::<(int, Seq<char>), UnmarshalError>(
            (at + 3, seq![c]),
        ),
{
    let bytes = buf.subrange(at + 1, at + 2);
    assert(vstd::utf8::is_ascii_chars(seq![c]));
    vstd::utf8::is_ascii_chars_encode_utf8(seq![c]);
    assert(vstd::utf8::encode_utf8(seq![c]) =~= bytes);
    text::lemma_encode_utf8_valid(seq![c]);
}

proof fn lemma_variants_step(buf: Seq<u8>, at: int, count: nat)
    requires
        count > 0,
        variants_at(buf, at, count),
    ensures
        one_type_at(buf, at, 'v'),
        variants_at(buf, at + 3, (count - 1) as nat),
{
    assert(one_type_at(buf, at + 3 * 0, 'v'));
    assert forall|i: int| 0 <= i < count - 1 implies #[trigger] one_type_at(
        buf,
        at + 3 + 3 * i,
        'v',
    ) by {
        assert(one_type_at(buf, at + 3 * (i + 1), 'v'));
    }
}

proof fn lemma_variants_too_deep(order: ByteOrder, buf: Seq<u8>, at: int, room: nat)
    requires
        variants_at(buf, at, room),
        wire_format::parsed_signature(seq!['v']) == Ok::<Seq<Seq<char>>, SignatureError>(
            seq![seq!['v']],
        ),
    ensures
        reach(order, buf, at, seq!['v'], room) is TooDeep,
    decreases room,
{
    assert(seq!['v'][0] == 'v');
    assert(seq!['v'].contains('v'));
    if room > 0 {
        lemma_variants_step(buf, at, room);
        lemma_one_type(buf, at, 'v');
        lemma_variants_too_deep(order, buf, at + 3, (room - 1) as nat);
    }
}

proof fn lemma_variants_not_too_deep(
    order: ByteOrder,
    buf: Seq<u8>,
    at: int,
    count: nat,
    room: nat,
)
    requires
        variants_at(buf, at, count),
        one_type_at(buf, at + 3 * count, 'y'),
        count < room,
        wire_format::parsed_signature(seq!['v']) == Ok::<Seq<Seq<char>>, SignatureError>(
            seq![seq!['v']],
        ),
        wire_format::parsed_signature(seq!['y']) == Ok::<Seq<Seq<char>>, SignatureError>(
            seq![seq!['y']],
        ),
    ensures
        reach(order, buf, at, seq!['v'], room) is End || reach(order, buf, at, seq!['v'], room)
            is Refused,
    decreases count,
{
    assert(seq!['v'][0] == 'v');
    assert(seq!['v'].contains('v'));
    if count > 0 {
        lemma_variants_step(buf, at, count);
        lemma_one_type(buf, at, 'v');
        lemma_variants_not_too_deep(order, buf, at + 3, (count - 1) as nat, (room - 1) as nat);
    } else {
        lemma_one_type(buf, at, 'y');
        let t = seq!['y'];
        assert(t.len() == 1 && t[0] == 'y');
        assert(is_plain(t));
        let inner = reach(order, buf, at + 3, t, (room - 1) as nat);
        assert(inner == reach_leaf(order, buf, at + 3, t));
    }
}

/// A variant that holds a variant, and so on, is refused if there are more than 64 of them. A
/// byte in fewer variants is looked at.
pub proof fn law_sixty_four_variants(order: ByteOrder, buf: Seq<u8>, at: int, count: nat)
    requires
        variants_at(buf, at, count),
        wire_format::parsed_signature(seq!['v']) == Ok::<Seq<Seq<char>>, SignatureError>(
            seq![seq!['v']],
        ),
        wire_format::parsed_signature(seq!['y']) == Ok::<Seq<Seq<char>>, SignatureError>(
            seq![seq!['y']],
        ),
    ensures
        count >= 64 ==> depth_error(order, buf, at, seq!['v']) == Some(
            UnmarshalError::NestedTooDeep,
        ),
        count < 64 && one_type_at(buf, at + 3 * count, 'y') ==> depth_error(
            order,
            buf,
            at,
            seq!['v'],
        ) is None,
{
    reveal(depth_error);
    assert(seq!['v'][0] == 'v');
    assert(seq!['v'].contains('v'));
    if count >= 64 {
        assert(variants_at(buf, at, 64));
        lemma_variants_too_deep(order, buf, at, 64);
    } else if one_type_at(buf, at + 3 * count, 'y') {
        lemma_variants_not_too_deep(order, buf, at, count, 64);
    }
}

/// A type without variants nests no deeper than signatures allow. On a machine that can count
/// every text, values of such a type are always looked at.
pub proof fn law_types_without_variants_are_looked_at(
    order: ByteOrder,
    buf: Seq<u8>,
    at: int,
    t: Seq<char>,
)
    requires
        !t.contains('v'),
        u32::MAX + 5 <= usize::MAX || !(t.contains('s') || t.contains('o')),
    ensures
        depth_error(order, buf, at, t) is None,
{
    reveal(depth_error);
}

} // verus!
