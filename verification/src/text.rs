//! Splitting, joining and comparing text.
use vstd::prelude::*;
use vstd::utf8::*;

verus! {

/// The texts in a list.
pub open spec fn texts<'a>(list: Seq<&'a str>) -> Seq<Seq<char>> {
    list.map_values(|s: &'a str| s@)
}

/// The position of the first occurrence of `item`, or the length where there is none.
pub open spec fn first_index<A>(s: Seq<A>, item: A) -> int
    decreases s.len(),
{
    if s.len() == 0 || s[0] == item {
        0
    } else {
        1 + first_index(s.skip(1), item)
    }
}

/// The parts of `s` between the occurrences of `sep`, empty parts included.
pub open spec fn split_on<A>(s: Seq<A>, sep: A) -> Seq<Seq<A>>
    decreases s.len(),
{
    let i = first_index(s, sep);
    if 0 <= i < s.len() {
        seq![s.take(i)] + split_on(s.skip(i + 1), sep)
    } else {
        seq![s]
    }
}

/// `first_index` is the first position that holds the item, if any does.
pub proof fn lemma_first_index<A>(s: Seq<A>, item: A)
    ensures
        0 <= first_index(s, item) <= s.len(),
        first_index(s, item) < s.len() ==> s[first_index(s, item)] == item,
        forall|j: int| 0 <= j < first_index(s, item) ==> s[j] != item,
        s.contains(item) <==> first_index(s, item) < s.len(),
    decreases s.len(),
{
    if s.len() > 0 && s[0] != item {
        lemma_first_index(s.skip(1), item);
        let i = first_index(s.skip(1), item);
        assert forall|j: int| 0 <= j < 1 + i implies s[j] != item by {
            if j > 0 {
                assert(s[j] == s.skip(1)[j - 1]);
            }
        }
        if s.contains(item) {
            let k = choose|k: int| 0 <= k < s.len() && s[k] == item;
            assert(s.skip(1)[k - 1] == item);
        }
    }
}

/// A position that holds the item, with none before it, is `first_index`.
pub proof fn lemma_first_index_is<A>(s: Seq<A>, item: A, i: int)
    requires
        0 <= i < s.len(),
        s[i] == item,
        forall|j: int| 0 <= j < i ==> s[j] != item,
    ensures
        first_index(s, item) == i,
{
    lemma_first_index(s, item);
    let k = first_index(s, item);
    if k < i {
        assert(s[k] != item);
    } else if i < k {
        assert(s[i] != item);
    }
}

/// Whatever stands in `s` and is no separator stands in one of its parts.
pub proof fn lemma_split_on_covers<A>(s: Seq<A>, sep: A, i: int)
    requires
        0 <= i < s.len(),
        s[i] != sep,
    ensures
        exists|p: int, j: int|
            0 <= p < split_on(s, sep).len() && 0 <= j < split_on(s, sep)[p].len() && s[i]
                == #[trigger] split_on(s, sep)[p][j],
    decreases s.len(),
{
    lemma_first_index(s, sep);
    let k = first_index(s, sep);
    let parts = split_on(s, sep);
    if k >= s.len() {
        assert(parts[0][i] == s[i]);
    } else if i < k {
        assert(parts[0] == s.take(k));
        assert(parts[0][i] == s[i]);
    } else {
        let tail = s.skip(k + 1);
        assert(tail[i - k - 1] == s[i]);
        lemma_split_on_covers(tail, sep, i - k - 1);
        let (p, j) = choose|p: int, j: int|
            0 <= p < split_on(tail, sep).len() && 0 <= j < split_on(tail, sep)[p].len() && tail[i
                - k - 1] == #[trigger] split_on(tail, sep)[p][j];
        assert(parts[p + 1] == split_on(tail, sep)[p]);
        assert(s[i] == parts[p + 1][j]);
    }
}

/// Text is determined by its UTF-8 encoding.
pub proof fn lemma_encode_utf8_injective(a: Seq<char>, b: Seq<char>)
    requires
        encode_utf8(a) == encode_utf8(b),
    ensures
        a == b,
{
    vstd::utf8::encode_utf8_decode_utf8(a);
    vstd::utf8::encode_utf8_decode_utf8(b);
}

/// The encoding of two texts in sequence is the sequence of their encodings.
pub proof fn lemma_encode_utf8_concat(a: Seq<char>, b: Seq<char>)
    ensures
        encode_utf8(a + b) == encode_utf8(a) + encode_utf8(b),
    decreases a.len(),
{
    if a.len() == 0 {
        assert(a + b =~= b);
        assert(encode_utf8(a) =~= Seq::<u8>::empty());
        assert(encode_utf8(a) + encode_utf8(b) =~= encode_utf8(b));
    } else {
        assert((a + b).drop_first() =~= a.drop_first() + b);
        assert((a + b)[0] == a[0]);
        lemma_encode_utf8_concat(a.drop_first(), b);
        assert(encode_utf8(a + b) =~= encode_utf8(a) + encode_utf8(b));
    }
}

/// The encoding of text is valid, and decodes to the text.
pub proof fn lemma_encode_utf8_valid(text: Seq<char>)
    ensures
        valid_utf8(encode_utf8(text)),
        decode_utf8(encode_utf8(text)) == text,
{
    vstd::utf8::encode_utf8_valid_utf8(text);
    vstd::utf8::encode_utf8_decode_utf8(text);
}

/// Whether two byte strings are equal.
pub fn bytes_eq(a: &[u8], b: &[u8]) -> (equal: bool)
    ensures
        equal == (a@ == b@),
{
    if a.len() != b.len() {
        return false;
    }
    let mut i: usize = 0;
    while i < a.len()
        invariant
            a@.len() == b@.len(),
            i <= a@.len(),
            forall|j: int| 0 <= j < i ==> a@[j] == b@[j],
        decreases a@.len() - i,
    {
        if a[i] != b[i] {
            assert(a@[i as int] != b@[i as int]);
            return false;
        }
        i += 1;
    }
    assert(a@ =~= b@);
    true
}

/// Whether two texts are equal.
pub fn str_eq(a: &str, b: &str) -> (equal: bool)
    ensures
        equal == (a@ == b@),
{
    let equal = bytes_eq(a.as_bytes(), b.as_bytes());
    proof {
        if encode_utf8(a@) == encode_utf8(b@) {
            lemma_encode_utf8_injective(a@, b@);
        }
    }
    equal
}

/// Calls `str::split_once` of the standard library with a `char` delimiter: the text before
/// the first delimiter and the text after it, or `None` where the text holds no delimiter.
#[verifier::external_body]
pub(crate) fn split_once(text: &str, delimiter: char) -> (parts: Option<(&str, &str)>)
    ensures
        match parts {
            Some((before, after)) => {
                &&& text@ == before@ + seq![delimiter] + after@
                &&& !before@.contains(delimiter)
            },
            None => !text@.contains(delimiter),
        },
{
    text.split_once(delimiter)
}

/// `String::with_capacity` makes an empty text. It panics where the capacity exceeds
/// `isize::MAX`.
pub assume_specification[ std::string::String::with_capacity ](capacity: usize) -> (s: String)
    requires
        capacity <= isize::MAX,
    ensures
        s@ == Seq::<char>::empty(),
;

/// `String::clear` removes the text and keeps the allocation.
pub assume_specification[ std::string::String::clear ](s: &mut String)
    ensures
        final(s)@ == Seq::<char>::empty(),
;

/// `String::truncate` keeps the first `new_len` bytes. Of text that is not ASCII nothing is
/// stated, because the length then has to lie between two characters.
pub assume_specification[ std::string::String::truncate ](s: &mut String, new_len: usize)
    requires
        is_ascii_chars(old(s)@),
        new_len <= old(s)@.len(),
    ensures
        final(s)@ == old(s)@.take(new_len as int),
;

/// `String::reserve` leaves the text as it is. It panics where the new capacity would exceed
/// `isize::MAX`.
pub assume_specification[ std::string::String::reserve ](s: &mut String, additional: usize)
    requires
        encode_utf8(old(s)@).len() + additional <= isize::MAX,
    ensures
        final(s)@ == old(s)@,
;

/// `String::reserve_exact` leaves the text as it is. It panics where the new capacity would
/// exceed `isize::MAX`.
pub assume_specification[ std::string::String::reserve_exact ](s: &mut String, additional: usize)
    requires
        encode_utf8(old(s)@).len() + additional <= isize::MAX,
    ensures
        final(s)@ == old(s)@,
;

/// `String::capacity` is the size of the allocation in bytes, which holds the text.
pub assume_specification[ std::string::String::capacity ](s: &String) -> (capacity: usize)
    ensures
        encode_utf8(s@).len() <= capacity,
;

} // verus!
