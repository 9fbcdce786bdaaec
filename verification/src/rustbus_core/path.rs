//! D-Bus object paths.
//!
//! An [`ObjectPath`] is text that starts with `/`, whose elements between the slashes are
//! not empty and hold the characters `[A-Z][a-z][0-9]_` only, and that does not end with `/`
//! unless it is the root path, a single `/`. The text of a path and its sequence of elements
//! determine each other, so the operations on paths are stated over the elements.
use vstd::prelude::*;
use vstd::utf8::*;

use crate::text;

verus! {

/// The ways in which text can fail to be an object path.
#[derive(Clone, Copy, Debug, PartialEq, Eq, Structural)]
pub enum InvalidObjectPath {
    NoRoot,
    ContainsInvalidCharacters,
    ConsecutiveSlashes,
    TrailingSlash,
}

/// Returned where a path does not start with the prefix that was to be removed.
#[derive(Clone, Copy, Debug, PartialEq, Eq, Structural)]
pub struct StripPrefixError;

/// A character that may stand in an element of an object path.
pub open spec fn element_char(c: char) -> bool {
    'A' <= c <= 'Z' || 'a' <= c <= 'z' || '0' <= c <= '9' || c == '_'
}

/// What is wrong with the character at position `i`, if anything.
pub open spec fn fault_at(path: Seq<char>, i: int) -> Option<InvalidObjectPath> {
    if path[i] == '/' {
        if i > 0 && path[i - 1] == '/' {
            Some(InvalidObjectPath::ConsecutiveSlashes)
        } else {
            None
        }
    } else if element_char(path[i]) {
        None
    } else {
        Some(InvalidObjectPath::ContainsInvalidCharacters)
    }
}

/// The first fault at or behind position `from`.
pub open spec fn first_fault(path: Seq<char>, from: int) -> Option<InvalidObjectPath>
    decreases path.len() - from,
{
    if from >= path.len() {
        None
    } else {
        match fault_at(path, from) {
            Some(fault) => Some(fault),
            None => first_fault(path, from + 1),
        }
    }
}

/// Whether text obeys the rules of object paths, apart from having to start with `/`.
pub open spec fn checked_without_root(path: Seq<char>) -> Result<(), InvalidObjectPath> {
    match first_fault(path, 0) {
        Some(fault) => Err(fault),
        None => if path.len() > 1 && path.last() == '/' {
            Err(InvalidObjectPath::TrailingSlash)
        } else {
            Ok(())
        },
    }
}

/// Whether text is an object path, and if not the first rule that it breaks.
pub open spec fn checked(path: Seq<char>) -> Result<(), InvalidObjectPath> {
    if path.len() == 0 || path[0] != '/' {
        Err(InvalidObjectPath::NoRoot)
    } else {
        checked_without_root(path)
    }
}

/// Text that is an object path.
pub open spec fn valid_path(path: Seq<char>) -> bool {
    checked(path) is Ok
}

/// An element of an object path.
pub open spec fn valid_element(element: Seq<char>) -> bool {
    element.len() > 0 && forall|i: int|
        0 <= i < element.len() ==> element_char(#[trigger] element[i])
}

/// The names between the slashes of a path. Empty names, and the name `.`, do not count.
pub open spec fn elements(path: Seq<char>) -> Seq<Seq<char>>
    decreases path.len(),
{
    let i = text::first_index(path, '/');
    let name = if 0 <= i < path.len() {
        path.take(i)
    } else {
        path
    };
    let rest = if 0 <= i < path.len() {
        elements(path.skip(i + 1))
    } else {
        seq![]
    };
    if name.len() == 0 || name == seq!['.'] {
        rest
    } else {
        seq![name] + rest
    }
}

/// The elements, each behind a slash.
pub open spec fn joined(names: Seq<Seq<char>>) -> Seq<char>
    decreases names.len(),
{
    if names.len() == 0 {
        seq![]
    } else {
        joined(names.drop_last()) + seq!['/'] + names.last()
    }
}

/// The object path with the given elements.
pub open spec fn path_of(names: Seq<Seq<char>>) -> Seq<char> {
    if names.len() == 0 {
        seq!['/']
    } else {
        joined(names)
    }
}

/// What stands before the elements of a path: `/` where it is absolute, and `.` where it starts
/// with that name.
pub open spec fn path_lead(path: Seq<char>) -> Seq<Seq<char>> {
    if path.len() > 0 && path[0] == '/' {
        seq![seq!['/']]
    } else if path.len() > 0 && path[0] == '.' && (path.len() == 1 || path[1] == '/') {
        seq![seq!['.']]
    } else {
        seq![]
    }
}

/// The components of any path, absolute or not.
pub open spec fn components_of(path: Seq<char>) -> Seq<Seq<char>> {
    path_lead(path) + elements(path)
}

/// The path `base` starts the path `path`: the components of `base` are the first ones of
/// `path`.
pub open spec fn path_starts_with(path: Seq<char>, base: Seq<char>) -> bool {
    components_of(base).is_prefix_of(components_of(path))
}

/// What starts an object path is empty, or it is absolute and its elements are the first ones
/// of the path.
pub proof fn lemma_starts_valid_path(path: Seq<char>, base: Seq<char>)
    requires
        valid_path(path),
    ensures
        path_starts_with(path, base) == (base.len() == 0 || (base[0] == '/' && elements(
            base,
        ).is_prefix_of(elements(path)))),
{
    lemma_valid_path(path);
    let own = components_of(path);
    let other = components_of(base);
    assert(own[0] =~= seq!['/']);
    if base.len() == 0 {
        lemma_elements_empty();
        assert(base =~= seq![]);
        assert(other =~= own.subrange(0, 0));
    } else if base[0] == '/' {
        if elements(base).is_prefix_of(elements(path)) {
            assert(other =~= own.subrange(0, other.len() as int));
        }
        if other.is_prefix_of(own) {
            assert forall|i: int| 0 <= i < elements(base).len() implies elements(base)[i]
                == elements(path).subrange(0, elements(base).len() as int)[i] by {
                assert(other[i + 1] == own.subrange(0, other.len() as int)[i + 1]);
            }
            assert(elements(base) =~= elements(path).subrange(0, elements(base).len() as int));
        }
    } else {
        text::lemma_first_index(base, '/');
        assert(other.len() > 0 && other[0] != seq!['/']) by {
            let i = text::first_index(base, '/');
            let name = if i < base.len() {
                base.take(i)
            } else {
                base
            };
            assert(name[0] == base[0]);
            if name =~= seq!['.'] {
                assert(base[0] == '.');
                assert(other[0][0] == '.');
            } else {
                assert(elements(base)[0] == name);
                assert(path_lead(base).len() == 0 || path_lead(base)[0][0] == '.');
                assert(other[0][0] == base[0] || other[0][0] == '.');
            }
        }
        if other.is_prefix_of(own) {
            assert(other[0] == own.subrange(0, other.len() as int)[0]);
        }
    }
}

proof fn lemma_first_fault_none(path: Seq<char>, from: int)
    requires
        0 <= from,
    ensures
        first_fault(path, from) is None <==> forall|i: int|
            from <= i < path.len() ==> fault_at(path, i) is None,
    decreases path.len() - from,
{
    if from < path.len() {
        lemma_first_fault_none(path, from + 1);
        assert(fault_at(path, from) is None || fault_at(path, from) is Some);
    }
}

/// What it takes to be an object path, as a property of every position.
pub proof fn lemma_valid_path(path: Seq<char>)
    ensures
        valid_path(path) <==> {
            &&& path.len() > 0
            &&& path[0] == '/'
            &&& forall|i: int| 0 <= i < path.len() ==> fault_at(path, i) is None
            &&& (path.len() == 1 || path.last() != '/')
        },
{
    lemma_first_fault_none(path, 0);
}

proof fn lemma_elements_empty()
    ensures
        elements(seq![]) == Seq::<Seq<char>>::empty(),
{
    assert(elements(seq![]) =~= Seq::<Seq<char>>::empty());
}

/// The elements of two paths with a slash between them.
pub proof fn lemma_elements_join(a: Seq<char>, b: Seq<char>)
    ensures
        elements(a + seq!['/'] + b) == elements(a) + elements(b),
    decreases a.len(),
{
    let s = a + seq!['/'] + b;
    text::lemma_first_index(a, '/');
    let i = text::first_index(a, '/');
    assert forall|j: int| 0 <= j < i implies s[j] != '/' by {
        assert(s[j] == a[j]);
    }
    assert(s[i] == '/') by {
        if i < a.len() {
            assert(s[i] == a[i]);
        }
    }
    text::lemma_first_index_is(s, '/', i);
    if i < a.len() {
        assert(s.take(i) =~= a.take(i));
        assert(s.skip(i + 1) =~= a.skip(i + 1) + seq!['/'] + b);
        lemma_elements_join(a.skip(i + 1), b);
        assert(elements(s) =~= elements(a) + elements(b));
    } else {
        assert(s.take(i) =~= a);
        assert(s.skip(i + 1) =~= b);
        assert(elements(s) =~= elements(a) + elements(b));
    }
}

/// A name without slashes is its own only element.
proof fn lemma_elements_single(name: Seq<char>)
    requires
        valid_element(name),
    ensures
        elements(name) == seq![name],
{
    text::lemma_first_index(name, '/');
    let i = text::first_index(name, '/');
    if i < name.len() {
        assert(element_char(name[i]));
    }
    if name == seq!['.'] {
        assert(element_char(name[0]));
    }
    assert(elements(name) =~= seq![name]);
}

proof fn lemma_joined_single(name: Seq<char>)
    ensures
        joined(seq![name]) == seq!['/'] + name,
{
    assert(seq![name].drop_last() =~= seq![]);
    assert(joined(seq![]) =~= seq![]);
    assert(joined(seq![name]) =~= seq!['/'] + name);
}

/// Joining two runs of elements joins the texts.
proof fn lemma_joined_concat(a: Seq<Seq<char>>, b: Seq<Seq<char>>)
    ensures
        joined(a + b) == joined(a) + joined(b),
    decreases b.len(),
{
    if b.len() == 0 {
        assert(a + b =~= a);
        assert(joined(a) + joined(b) =~= joined(a));
    } else {
        assert((a + b).drop_last() =~= a + b.drop_last());
        lemma_joined_concat(a, b.drop_last());
        assert(joined(a + b) =~= joined(a) + joined(b));
    }
}

/// The elements of a valid path are valid, and the path is what they make when joined.
pub proof fn lemma_path_of_elements(path: Seq<char>)
    requires
        valid_path(path),
    ensures
        path_of(elements(path)) == path,
        forall|i: int| 0 <= i < elements(path).len() ==> valid_element(#[trigger] elements(path)[i]),
    decreases path.len(),
{
    lemma_valid_path(path);
    let rest = path.skip(1);
    assert(path =~= Seq::<char>::empty() + seq!['/'] + rest);
    lemma_elements_join(seq![], rest);
    lemma_elements_empty();
    assert(elements(path) =~= elements(rest));
    if path.len() > 1 {
        text::lemma_first_index(rest, '/');
        let i = text::first_index(rest, '/');
        assert(fault_at(path, 1) is None);
        assert(i > 0);
        let name = rest.take(i);
        assert forall|j: int| 0 <= j < name.len() implies element_char(#[trigger] name[j]) by {
            assert(fault_at(path, j + 1) is None);
            assert(name[j] == rest[j] && rest[j] == path[j + 1]);
        }
        lemma_elements_single(name);
        if i < rest.len() {
            let tail = rest.skip(i);
            assert(rest =~= name + seq!['/'] + rest.skip(i + 1));
            assert(tail =~= Seq::<char>::empty() + seq!['/'] + rest.skip(i + 1));
            lemma_elements_join(name, rest.skip(i + 1));
            lemma_elements_join(seq![], rest.skip(i + 1));
            assert(elements(tail) =~= elements(rest.skip(i + 1)));
            assert forall|j: int| 0 <= j < tail.len() implies fault_at(tail, j) is None by {
                assert(fault_at(path, j + i + 1) is None);
                assert(tail[j] == path[j + i + 1]);
                if j > 0 {
                    assert(tail[j - 1] == path[j + i]);
                }
            }
            assert(tail.last() == path.last());
            assert(tail.len() > 1);
            lemma_valid_path(tail);
            lemma_path_of_elements(tail);
            assert(elements(tail).len() > 0) by {
                if elements(tail).len() == 0 {
                    assert(tail == seq!['/']);
                }
            }
            assert(elements(path) =~= seq![name] + elements(tail));
            lemma_joined_concat(seq![name], elements(tail));
            lemma_joined_single(name);
            assert(path =~= seq!['/'] + name + tail);
        } else {
            assert(rest =~= name);
            assert(elements(path) =~= seq![name]);
            lemma_joined_single(name);
            assert(path =~= seq!['/'] + name);
        }
    } else {
        assert(rest =~= seq![]);
        assert(path =~= seq!['/']);
    }
}

/// Valid elements make a valid path, which has those elements.
pub proof fn lemma_elements_of_path(names: Seq<Seq<char>>)
    requires
        forall|i: int| 0 <= i < names.len() ==> valid_element(#[trigger] names[i]),
    ensures
        valid_path(path_of(names)),
        elements(path_of(names)) == names,
    decreases names.len(),
{
    let path = path_of(names);
    lemma_elements_empty();
    if names.len() == 0 {
        lemma_elements_join(seq![], seq![]);
        assert(path =~= Seq::<char>::empty() + seq!['/'] + Seq::<char>::empty());
        lemma_valid_path(path);
        assert(elements(path) =~= names);
    } else {
        let front = names.drop_last();
        let name = names.last();
        assert forall|i: int| 0 <= i < front.len() implies valid_element(#[trigger] front[i]) by {
            assert(front[i] == names[i]);
        }
        assert(valid_element(names[names.len() - 1]));
        lemma_elements_of_path(front);
        lemma_elements_single(name);
        let head = joined(front);
        assert(path == head + seq!['/'] + name);
        lemma_elements_join(head, name);
        assert(elements(head) =~= front);
        assert(elements(path) =~= names);
        lemma_valid_path(path_of(front));
        assert forall|i: int| 0 <= i < path.len() implies fault_at(path, i) is None by {
            if i < head.len() {
                assert(path[i] == head[i]);
                assert(fault_at(head, i) is None);
                if i > 0 {
                    assert(path[i - 1] == head[i - 1]);
                }
            } else if i == head.len() {
                assert(path[i] == '/');
                if i > 0 {
                    assert(path[i - 1] == head.last());
                    assert(head.len() > 1) by {
                        if head.len() == 1 {
                            assert(head =~= seq!['/']);
                            lemma_elements_join(seq![], seq![]);
                            assert(head =~= Seq::<char>::empty() + seq!['/'] + Seq::<char>::empty());
                            assert(elements(head).len() == 0);
                        }
                    }
                }
            } else {
                let k = i - head.len() - 1;
                assert(path[i] == name[k]);
                assert(element_char(name[k]));
            }
        }
        assert(path.last() == name.last());
        assert(element_char(name[name.len() - 1]));
        lemma_valid_path(path);
    }
}

/// Two object paths with the same elements are the same.
pub proof fn lemma_same_elements(a: Seq<char>, b: Seq<char>)
    requires
        valid_path(a),
        valid_path(b),
        elements(a) == elements(b),
    ensures
        a == b,
{
    lemma_path_of_elements(a);
    lemma_path_of_elements(b);
}

/// An object path is ASCII text.
pub proof fn lemma_valid_path_ascii(path: Seq<char>)
    requires
        valid_path(path),
    ensures
        is_ascii_chars(path),
{
    lemma_valid_path(path);
    assert forall|i: int| 0 <= i < path.len() implies '\0' <= #[trigger] path[i] <= '\u{7f}' by {
        assert(fault_at(path, i) is None);
    }
}

/// The names between the slashes of `path`.
pub(crate) fn path_elements(path: &str) -> (names: Vec<&str>)
    ensures
        names@.map_values(|n: &str| n@) == elements(path@),
{
    let mut names: Vec<&str> = Vec::new();
    let mut rest = path;
    loop
        invariant
            names@.map_values(|n: &str| n@) + elements(rest@) == elements(path@),
        decreases rest@.len(),
    {
        let ghost before = names@.map_values(|n: &str| n@);
        match text::split_once(rest, '/') {
            Some((name, tail)) => {
                proof {
                    lemma_elements_join(name@, tail@);
                    text::lemma_first_index(name@, '/');
                }
                if !name.is_empty() && !text::str_eq(name, ".") {
                    names.push(name);
                    proof {
                        reveal_strlit(".");
                        assert("."@ =~= seq!['.']);
                        assert(elements(name@) =~= seq![name@]);
                        assert(names@.map_values(|n: &str| n@) =~= before + seq![name@]);
                        assert(before + (seq![name@] + elements(tail@)) =~= before + seq![name@]
                            + elements(tail@));
                    }
                } else {
                    proof {
                        reveal_strlit(".");
                        assert("."@ =~= seq!['.']);
                        assert(elements(name@) =~= seq![]);
                        assert(elements(name@) + elements(tail@) =~= elements(tail@));
                    }
                }
                rest = tail;
            },
            None => {
                proof {
                    text::lemma_first_index(rest@, '/');
                    reveal_strlit(".");
                    assert("."@ =~= seq!['.']);
                }
                if !rest.is_empty() && !text::str_eq(rest, ".") {
                    names.push(rest);
                    assert(elements(rest@) =~= seq![rest@]);
                    assert(names@.map_values(|n: &str| n@) =~= before + seq![rest@]);
                } else {
                    assert(elements(rest@) =~= seq![]);
                    assert(before + elements(rest@) =~= before);
                }
                return names;
            },
        }
    }
}

/// The components of `path`.
pub(crate) fn path_components(path: &str) -> (names: Vec<&str>)
    ensures
        text::texts(names@) == components_of(path@),
{
    let first = match text::split_once(path, '/') {
        Some((name, _)) => name,
        None => path,
    };
    proof {
        reveal_strlit("/");
        reveal_strlit(".");
        assert("/"@ =~= seq!['/']);
        assert("."@ =~= seq!['.']);
        assert(first@.len() > 0 ==> first@[0] == path@[0]);
        assert(first@.len() > 0 ==> first@[0] != '/');
    }
    proof {
        if first@.len() > 1 {
            assert(first@[1] == path@[1]);
            assert(first@[1] != '/');
        }
        if first@ == seq!['.'] {
            assert(path@[0] == '.');
            assert(path@.len() == 1 || path@[1] == '/');
        }
        if path@.len() > 0 && path@[0] == '.' && (path@.len() == 1 || path@[1] == '/') {
            assert(first@ =~= seq!['.']);
        }
    }
    let mut names: Vec<&str> = Vec::new();
    if !path.is_empty() && first.is_empty() {
        assert(path@[0] == '/');
        names.push("/");
        assert(text::texts(names@) =~= seq!["/"@]);
    } else if text::str_eq(first, ".") {
        names.push(".");
        assert(text::texts(names@) =~= seq!["."@]);
    } else {
        assert(text::texts(names@) =~= seq![]);
    }
    assert(text::texts(names@) == path_lead(path@));
    let mut others = path_elements(path);
    let ghost lead = names@;
    let ghost own = others@;
    names.append(&mut others);
    proof {
        assert(text::texts(names@) =~= text::texts(lead) + text::texts(own));
    }
    names
}

/// Whether the components of `base` are the first ones of `path`.
pub(crate) fn starts_with(path: &str, base: &str) -> (starts: bool)
    ensures
        starts == path_starts_with(path@, base@),
{
    let own = path_components(path);
    let other = path_components(base);
    let ghost co = components_of(path@);
    let ghost cb = components_of(base@);
    if own.len() < other.len() {
        return false;
    }
    let mut i: usize = 0;
    while i < other.len()
        invariant
            i <= other.len() <= own.len(),
            text::texts(own@) == co,
            text::texts(other@) == cb,
            co == components_of(path@),
            cb == components_of(base@),
            forall|j: int| 0 <= j < i ==> co[j] == cb[j],
        decreases other.len() - i,
    {
        proof {
            assert(co[i as int] == own@[i as int]@);
            assert(cb[i as int] == other@[i as int]@);
        }
        if !text::str_eq(own[i], other[i]) {
            proof {
                if cb.is_prefix_of(co) {
                    assert(cb[i as int] == co.subrange(0, cb.len() as int)[i as int]);
                }
            }
            return false;
        }
        i += 1;
    }
    assert(cb =~= co.subrange(0, cb.len() as int));
    true
}

/// Whether `path` obeys the rules of object paths, apart from having to start with `/`.
fn check_without_root(path: &str) -> (result: Result<(), InvalidObjectPath>)
    ensures
        result == checked_without_root(path@),
{
    let mut last_was_sep = false;
    for c in chars: path.chars()
        invariant
            chars.seq() == path@,
            first_fault(path@, 0) == first_fault(path@, chars.index() as int),
            last_was_sep == (chars.index() > 0 && path@[chars.index() - 1] == '/'),
    {
        assert(c == path@[chars.index() as int]);
        if ('A' <= c && c <= 'Z') || ('a' <= c && c <= 'z') || ('0' <= c && c <= '9') || c == '_' {
            last_was_sep = false;
        } else if c == '/' {
            if last_was_sep {
                return Err(InvalidObjectPath::ConsecutiveSlashes);
            }
            last_was_sep = true;
        } else {
            return Err(InvalidObjectPath::ContainsInvalidCharacters);
        }
    }
    if last_was_sep && !text::str_eq(path, "/") {
        proof {
            reveal_strlit("/");
            assert("/"@ =~= seq!['/']);
            if path@.len() == 1 {
                assert(path@ =~= seq!['/']);
            }
        }
        return Err(InvalidObjectPath::TrailingSlash);
    }
    proof {
        reveal_strlit("/");
    }
    Ok(())
}

/// A borrowed object path.
#[derive(Clone, Copy, Debug, PartialEq, Eq, PartialOrd, Ord)]
pub struct ObjectPath<'a> {
    inner: &'a str,
}

/// Calls the `Hash` of `std::path::Path`, so that a path and the same path of the file system
/// have one hash. Nothing is stated of it.
impl<'a> std::hash::Hash for ObjectPath<'a> {
    #[verifier::external_body]
    fn hash<H: std::hash::Hasher>(&self, state: &mut H) {
        std::path::Path::new(self.inner).hash(state)
    }
}

impl<'a> View for ObjectPath<'a> {
    type V = Seq<char>;

    closed spec fn view(&self) -> Seq<char> {
        self.inner@
    }
}

impl<'a> ObjectPath<'a> {
    #[verifier::type_invariant]
    spec fn inv(self) -> bool {
        valid_path(self.inner@)
    }

    /// The elements of the path.
    pub open spec fn elements(self) -> Seq<Seq<char>> {
        elements(self@)
    }

    /// Checks `p` against the rules of object paths.
    pub fn new(p: &'a str) -> (path: Result<ObjectPath<'a>, InvalidObjectPath>)
        ensures
            match path {
                Ok(path) => valid_path(p@) && path@ == p@,
                Err(error) => checked(p@) == Err::<(), InvalidObjectPath>(error),
            },
    {
        if p.is_empty() {
            return Err(InvalidObjectPath::NoRoot);
        }
        if p.get_char(0) != '/' {
            return Err(InvalidObjectPath::NoRoot);
        }
        match check_without_root(p) {
            Ok(()) => Ok(ObjectPath { inner: p }),
            Err(error) => Err(error),
        }
    }

    /// The bytes of the path.
    pub fn as_bytes(&self) -> (bytes: &'a [u8])
        ensures
            bytes@ == encode_utf8(self@),
    {
        self.inner.as_bytes()
    }

    /// The path as text.
    pub fn as_str(&self) -> (path: &'a str)
        ensures
            path@ == self@,
            valid_path(path@),
    {
        proof {
            use_type_invariant(self);
        }
        self.inner
    }

    /// The path without the elements of `p`, where `p` is an absolute path whose elements are
    /// the first ones of this path. The result is absolute again: it is the root path where
    /// nothing is left.
    pub fn strip_prefix(&self, p: &str) -> (stripped: Result<ObjectPath<'a>, StripPrefixError>)
        requires
            p@.len() > 0,
        ensures
            match stripped {
                Ok(rest) => {
                    &&& path_starts_with(self@, p@)
                    &&& valid_path(rest@)
                    &&& rest.elements() == self.elements().skip(elements(p@).len() as int)
                },
                Err(_) => !path_starts_with(self@, p@),
            },
    {
        proof {
            use_type_invariant(self);
            lemma_valid_path_ascii(self@);
            lemma_path_of_elements(self@);
            is_ascii_chars_encode_utf8(self@);
            lemma_starts_valid_path(self@, p@);
        }
        if p.get_char(0) != '/' {
            return Err(StripPrefixError);
        }
        let total: usize = self.inner.as_bytes().len();
        let own = path_elements(self.inner);
        let base = path_elements(p);
        let ghost own_names = elements(self@);
        let ghost base_names = elements(p@);
        proof {
            assert(own@.map_values(|n: &str| n@) == own_names);
            assert(base@.map_values(|n: &str| n@) == base_names);
        }
        if base.len() > own.len() {
            return Err(StripPrefixError);
        }
        let mut matched: usize = 0;
        let mut length: usize = 0;
        while matched < base.len()
            invariant
                matched <= base.len() <= own.len(),
                own@.map_values(|n: &str| n@) == own_names,
                base@.map_values(|n: &str| n@) == base_names,
                own_names == elements(self@),
                base_names == elements(p@),
                forall|i: int| 0 <= i < matched ==> own_names[i] == base_names[i],
                forall|i: int| 0 <= i < own_names.len() ==> valid_element(#[trigger] own_names[i]),
                length == joined(own_names.take(matched as int)).len(),
                length <= self@.len() == total,
                valid_path(self@),
                self@ == path_of(own_names),
                p@.len() > 0,
                p@[0] == '/',
            decreases base.len() - matched,
        {
            proof {
                assert(own_names[matched as int] == own@[matched as int]@);
                assert(base_names[matched as int] == base@[matched as int]@);
            }
            if !text::str_eq(own[matched], base[matched]) {
                proof {
                    lemma_starts_valid_path(self@, p@);
                    assert(own_names[matched as int] != base_names[matched as int]);
                }
                return Err(StripPrefixError);
            }
            proof {
                let name = own_names[matched as int];
                let taken = own_names.take(matched as int + 1);
                assert(taken.drop_last() =~= own_names.take(matched as int));
                assert(own_names =~= taken + own_names.skip(matched as int + 1));
                lemma_joined_concat(taken, own_names.skip(matched as int + 1));
                assert(joined(own_names).len() <= self@.len());
                assert(valid_element(name));
                lemma_valid_element_ascii(name);
                is_ascii_chars_encode_utf8(name);
            }
            length = length + 1 + own[matched].as_bytes().len();
            matched += 1;
        }
        proof {
            assert(base_names =~= own_names.take(base_names.len() as int));
            assert(base_names.is_prefix_of(own_names));
            let rest = own_names.skip(matched as int);
            assert(own_names =~= own_names.take(matched as int) + rest);
            lemma_joined_concat(own_names.take(matched as int), rest);
            assert forall|i: int| 0 <= i < rest.len() implies valid_element(#[trigger] rest[i]) by {
                assert(rest[i] == own_names[i + matched]);
            }
            lemma_elements_of_path(rest);
        }
        if matched == own.len() {
            assert(own_names.skip(matched as int) =~= seq![]);
            return Ok(ObjectPath::root_path());
        }
        proof {
            assert(self@.skip(length as int) =~= joined(own_names.skip(matched as int)));
            assert(self@.subrange(length as int, self@.len() as int) =~= self@.skip(length as int));
        }
        Ok(ObjectPath { inner: self.inner.substring_ascii(length, total) })
    }

    /// Whether the components of `base` are the first ones of this path.
    pub fn starts_with(&self, base: &str) -> (starts: bool)
        ensures
            starts == path_starts_with(self@, base@),
    {
        starts_with(self.inner, base)
    }

    /// The path without its last element, or `None` for the root path.
    pub fn parent(&self) -> (parent: Option<ObjectPath<'a>>)
        ensures
            match parent {
                Some(parent) => {
                    &&& self.elements().len() > 0
                    &&& valid_path(parent@)
                    &&& parent.elements() == self.elements().drop_last()
                },
                None => self.elements().len() == 0,
            },
    {
        proof {
            use_type_invariant(self);
            lemma_valid_path_ascii(self@);
            lemma_path_of_elements(self@);
            is_ascii_chars_encode_utf8(self@);
        }
        let length = self.last_slash()?;
        let ghost names = elements(self@);
        proof {
            let front = names.drop_last();
            assert forall|i: int| 0 <= i < front.len() implies valid_element(#[trigger] front[i]) by {
                assert(front[i] == names[i]);
            }
            lemma_elements_of_path(front);
        }
        if length == 0 {
            return Some(ObjectPath::root_path());
        }
        proof {
            assert(self@.subrange(0, length as int) =~= joined(names.drop_last()));
        }
        Some(ObjectPath { inner: self.inner.substring_ascii(0, length) })
    }

    /// Where the last element's slash stands, or `None` for the root path.
    fn last_slash(&self) -> (position: Option<usize>)
        ensures
            match position {
                Some(position) => {
                    let names = elements(self@);
                    &&& names.len() > 0
                    &&& position == joined(names.drop_last()).len()
                    &&& position + 1 + names.last().len() == self@.len()
                    &&& self@ == joined(names.drop_last()) + seq!['/'] + names.last()
                    &&& (position == 0 <==> names.len() == 1)
                },
                None => elements(self@).len() == 0,
            },
    {
        proof {
            use_type_invariant(self);
            lemma_valid_path_ascii(self@);
            lemma_path_of_elements(self@);
            is_ascii_chars_encode_utf8(self@);
        }
        let bytes = self.inner.as_bytes();
        let ghost names = elements(self@);
        if bytes.len() == 1 {
            proof {
                if names.len() > 0 {
                    assert(valid_element(names[names.len() - 1]));
                    assert(joined(names).len() >= 2);
                }
            }
            return None;
        }
        proof {
            if names.len() == 0 {
                assert(self@ == seq!['/']);
            }
            assert(valid_element(names[names.len() - 1]));
        }
        let ghost target = joined(names.drop_last()).len() as int;
        let mut i: usize = bytes.len() - 1;
        while bytes[i] != 0x2f
            invariant
                bytes@ == encode_utf8(self@),
                is_ascii_chars(self@),
                bytes@.len() == self@.len(),
                names.len() > 0,
                self@ == joined(names.drop_last()) + seq!['/'] + names.last(),
                valid_element(names.last()),
                target == joined(names.drop_last()).len(),
                target <= i < bytes@.len(),
            decreases i,
        {
            proof {
                is_ascii_chars_encode_utf8(self@);
                assert(self@[target] == '/');
                assert(bytes@[target] == self@[target] as u8);
            }
            i -= 1;
        }
        proof {
            is_ascii_chars_encode_utf8(self@);
            assert(bytes@[i as int] == self@[i as int] as u8);
            if i > target {
                let k = i - target - 1;
                assert(self@[i as int] == names.last()[k]);
                assert(element_char(names.last()[k]));
            }
            if names.len() > 1 {
                let front = names.drop_last();
                assert(valid_element(front[front.len() - 1])) by {
                    assert(valid_element(names[names.len() - 2]));
                }
                assert(joined(front).len() > 0);
            }
        }
        Some(i)
    }

    /// The last element of the path, or `None` for the root path.
    pub fn file_name(&self) -> (name: Option<&'a str>)
        ensures
            match name {
                Some(name) => self.elements().len() > 0 && name@ == self.elements().last(),
                None => self.elements().len() == 0,
            },
    {
        proof {
            use_type_invariant(self);
            lemma_valid_path_ascii(self@);
            is_ascii_chars_encode_utf8(self@);
        }
        let total: usize = self.inner.as_bytes().len();
        let position = self.last_slash()?;
        proof {
            assert(self@.subrange(position as int + 1, self@.len() as int) =~= elements(
                self@,
            ).last());
        }
        Some(self.inner.substring_ascii(position + 1, total))
    }

    /// The path that is a single slash.
    pub fn root_path() -> (path: ObjectPath<'static>)
        ensures
            path@ == seq!['/'],
            valid_path(path@),
            path.elements().len() == 0,
    {
        proof {
            reveal_strlit("/");
            assert("/"@ =~= seq!['/']);
            lemma_elements_of_path(seq![]);
        }
        ObjectPath { inner: "/" }
    }

    /// The elements of the path, from the first one on.
    pub fn components(&self) -> (names: Vec<&'a str>)
        ensures
            names@.map_values(|n: &str| n@) == self.elements(),
            forall|i: int| 0 <= i < names@.len() ==> valid_element(#[trigger] names@[i]@),
    {
        proof {
            use_type_invariant(self);
            lemma_path_of_elements(self@);
        }
        let names = path_elements(self.inner);
        assert forall|i: int| 0 <= i < names@.len() implies valid_element(
            #[trigger] names@[i]@,
        ) by {
            assert(elements(self@)[i] == names@[i]@);
        }
        names
    }

    /// A copy of the path that owns its text. The root path is copied without an allocation.
    pub fn to_object_path_buf(&self) -> (path: ObjectPathBuf)
        ensures
            path@ == self@,
            path.unallocated() == (self@ == seq!['/']),
    {
        proof {
            use_type_invariant(self);
            reveal_strlit("/");
            assert("/"@ =~= seq!['/']);
            lemma_valid_path(self@);
            if self@.len() == 1 {
                assert(self@ =~= seq!['/']);
            }
        }
        if text::str_eq(self.inner, "/") {
            ObjectPathBuf::new()
        } else {
            ObjectPathBuf { inner: Some(self.inner.to_owned()) }
        }
    }
}

proof fn lemma_valid_element_ascii(name: Seq<char>)
    requires
        valid_element(name),
    ensures
        is_ascii_chars(name),
{
    assert forall|i: int| 0 <= i < name.len() implies '\0' <= #[trigger] name[i] <= '\u{7f}' by {
        assert(element_char(name[i]));
    }
}

/// An object path that owns its text and can be changed in place.
///
/// The root path needs no allocation. Where there is one, it is kept as empty text.
#[derive(Debug)]
pub struct ObjectPathBuf {
    inner: Option<String>,
}

impl Clone for ObjectPathBuf {
    fn clone(&self) -> (path: Self)
        ensures
            path@ == self@,
            path.unallocated() == self.unallocated(),
    {
        proof {
            use_type_invariant(self);
        }
        ObjectPathBuf {
            inner: match &self.inner {
                Some(text) => Some(text.clone()),
                None => None,
            },
        }
    }
}

impl PartialEq for ObjectPathBuf {
    fn eq(&self, other: &Self) -> (equal: bool) {
        text::str_eq(self.as_object_path().as_str(), other.as_object_path().as_str())
    }
}

impl vstd::std_specs::cmp::PartialEqSpecImpl for ObjectPathBuf {
    open spec fn obeys_eq_spec() -> bool {
        true
    }

    open spec fn eq_spec(&self, other: &Self) -> bool {
        self@ == other@
    }
}

impl Eq for ObjectPathBuf {

}

impl PartialOrd for ObjectPathBuf {
    /// Calls `std::path::Path::partial_cmp` on the texts of the paths. Nothing is claimed of it.
    #[verifier::external_body]
    fn partial_cmp(&self, other: &Self) -> Option<std::cmp::Ordering> {
        let (path, other) = (self.as_object_path(), other.as_object_path());
        std::path::Path::new(path.inner).partial_cmp(std::path::Path::new(other.inner))
    }
}

impl Ord for ObjectPathBuf {
    /// Calls `std::path::Path::cmp` on the texts of the paths. Nothing is claimed of it.
    #[verifier::external_body]
    fn cmp(&self, other: &Self) -> std::cmp::Ordering {
        let (path, other) = (self.as_object_path(), other.as_object_path());
        std::path::Path::new(path.inner).cmp(std::path::Path::new(other.inner))
    }
}

impl std::hash::Hash for ObjectPathBuf {
    fn hash<H: std::hash::Hasher>(&self, state: &mut H) {
        self.as_object_path().hash(state)
    }
}

impl<'a> PartialEq<ObjectPath<'a>> for ObjectPathBuf {
    fn eq(&self, other: &ObjectPath<'a>) -> (equal: bool) {
        text::str_eq(self.as_object_path().as_str(), other.as_str())
    }
}

impl<'a> vstd::std_specs::cmp::PartialEqSpecImpl<ObjectPath<'a>> for ObjectPathBuf {
    open spec fn obeys_eq_spec() -> bool {
        true
    }

    open spec fn eq_spec(&self, other: &ObjectPath<'a>) -> bool {
        self@ == other@
    }
}

impl Default for ObjectPathBuf {
    fn default() -> (path: Self)
        ensures
            path@ == seq!['/'],
            path.unallocated(),
    {
        ObjectPathBuf::new()
    }
}

impl View for ObjectPathBuf {
    type V = Seq<char>;

    closed spec fn view(&self) -> Seq<char> {
        if self.text().len() == 0 {
            seq!['/']
        } else {
            self.text()
        }
    }
}

impl ObjectPathBuf {
    #[verifier::type_invariant]
    spec fn inv(self) -> bool {
        self.text().len() == 0 || (valid_path(self.text()) && self.text().len() > 1)
    }

    spec fn text(self) -> Seq<char> {
        match self.inner {
            Some(text) => text@,
            None => seq![],
        }
    }

    /// The path is kept without an allocation.
    pub closed spec fn unallocated(self) -> bool {
        self.inner is None
    }

    /// The elements of the path.
    pub open spec fn elements(self) -> Seq<Seq<char>> {
        elements(self@)
    }

    proof fn lemma_byte_length(self)
        requires
            self.inv(),
        ensures
            encode_utf8(self.text()).len() == self.text().len(),
    {
        if self.text().len() > 0 {
            lemma_valid_path_ascii(self.text());
        }
        is_ascii_chars_encode_utf8(self.text());
    }

    /// Takes the text out, and leaves the root path.
    fn take_text(&mut self) -> (text: String)
        ensures
            text@ == old(self).text(),
            final(self)@ == seq!['/'],
            final(self).unallocated(),
    {
        let mut inner: Option<String> = None;
        std::mem::swap(&mut inner, &mut self.inner);
        match inner {
            Some(text) => text,
            None => String::new(),
        }
    }

    /// The root path, without an allocation.
    pub fn new() -> (path: ObjectPathBuf)
        ensures
            path@ == seq!['/'],
            path.unallocated(),
    {
        ObjectPathBuf { inner: None }
    }

    /// The root path, with room for `capacity` bytes. No room takes no allocation.
    pub fn with_capacity(capacity: usize) -> (path: ObjectPathBuf)
        requires
            capacity <= isize::MAX,
        ensures
            path@ == seq!['/'],
            path.unallocated() == (capacity == 0),
    {
        if capacity == 0 {
            return ObjectPathBuf::new();
        }
        ObjectPathBuf { inner: Some(String::with_capacity(capacity)) }
    }

    /// Takes text that is an object path, and keeps its allocation.
    pub fn from_string(path: String) -> (result: Result<ObjectPathBuf, InvalidObjectPath>)
        ensures
            match result {
                Ok(buf) => valid_path(path@) && buf@ == path@ && !buf.unallocated(),
                Err(error) => checked(path@) == Err::<(), InvalidObjectPath>(error),
            },
    {
        match ObjectPath::new(path.as_str()) {
            Ok(_) => {
                proof {
                    reveal_strlit("/");
                    assert("/"@ =~= seq!['/']);
                    lemma_valid_path(path@);
                    if path@.len() == 1 {
                        assert(path@ =~= seq!['/']);
                    }
                }
                let mut text = path;
                if text::str_eq(text.as_str(), "/") {
                    text.clear();
                }
                Ok(ObjectPathBuf { inner: Some(text) })
            },
            Err(error) => Err(error),
        }
    }

    /// Copies text that is an object path.
    pub fn try_from(path: &str) -> (result: Result<ObjectPathBuf, InvalidObjectPath>)
        ensures
            match result {
                Ok(buf) => valid_path(path@) && buf@ == path@ && buf.unallocated() == (path@
                    == seq!['/']),
                Err(error) => checked(path@) == Err::<(), InvalidObjectPath>(error),
            },
    {
        match ObjectPath::new(path) {
            Ok(path) => Ok(path.to_object_path_buf()),
            Err(error) => Err(error),
        }
    }

    /// The text of the path.
    pub fn into_string(self) -> (path: String)
        ensures
            path@ == self@,
            valid_path(path@),
    {
        proof {
            use_type_invariant(&self);
            lemma_elements_of_path(seq![]);
            reveal_strlit("/");
            assert("/"@ =~= seq!['/']);
        }
        match self.inner {
            Some(text) => if text.as_str().is_empty() {
                "/".to_owned()
            } else {
                text
            },
            None => "/".to_owned(),
        }
    }

    /// Borrows the path.
    pub fn as_object_path(&self) -> (path: ObjectPath<'_>)
        ensures
            path@ == self@,
            valid_path(path@),
    {
        proof {
            use_type_invariant(self);
        }
        match &self.inner {
            Some(text) => if text.as_str().is_empty() {
                ObjectPath::root_path()
            } else {
                ObjectPath { inner: text.as_str() }
            },
            None => ObjectPath::root_path(),
        }
    }

    /// Makes this the root path and keeps the allocation.
    pub fn clear(&mut self)
        ensures
            final(self)@ == seq!['/'],
            final(self).unallocated() == old(self).unallocated(),
    {
        if self.inner.is_none() {
            return;
        }
        let mut text = self.take_text();
        text.clear();
        self.inner = Some(text);
    }

    /// Appends the elements of `path`.
    pub fn push(&mut self, path: ObjectPath<'_>)
        ensures
            valid_path(final(self)@),
            final(self).elements() == old(self).elements() + path.elements(),
            final(self).unallocated() == (old(self).unallocated() && path@ == seq!['/']),
    {
        proof {
            use_type_invariant(&*self);
            use_type_invariant(&path);
            lemma_elements_of_path(seq![]);
            lemma_path_of_elements(path@);
            lemma_path_of_elements(self@);
            reveal_strlit("/");
            assert("/"@ =~= seq!['/']);
        }
        let ghost before = self.elements();
        if text::str_eq(path.inner, "/") {
            assert(before + path.elements() =~= before);
            return;
        }
        proof {
            let all = before + path.elements();
            assert forall|i: int| 0 <= i < all.len() implies valid_element(#[trigger] all[i]) by {
                if i < before.len() {
                    assert(all[i] == before[i]);
                } else {
                    assert(all[i] == path.elements()[i - before.len()]);
                }
            }
            lemma_elements_of_path(all);
            lemma_joined_concat(before, path.elements());
            assert(path.elements().len() > 0);
            assert(self.text() =~= joined(before));
        }
        let mut inner = self.take_text();
        inner.append(path.inner);
        proof {
            assert(inner@ == path_of(before + path.elements()));
            lemma_valid_path(inner@);
            if inner@.len() == 1 {
                assert(inner@ =~= seq!['/']);
            }
        }
        self.inner = Some(inner);
    }

    /// Appends the elements of `path`, which may be relative or empty.
    pub fn push_path(&mut self, path: &str)
        requires
            checked_without_root(path@) is Ok,
        ensures
            valid_path(final(self)@),
            final(self).elements() == old(self).elements() + elements(path@),
    {
        let _ = self.push_path_checked(path);
    }

    /// Appends the elements of `path` if it is an object path. It may also be relative or
    /// empty.
    pub fn push_path_checked(&mut self, path: &str) -> (result: Result<(), InvalidObjectPath>)
        ensures
            result == checked_without_root(path@),
            match result {
                Ok(_) => {
                    &&& valid_path(final(self)@)
                    &&& final(self).elements() == old(self).elements() + elements(path@)
                },
                Err(_) => final(self)@ == old(self)@,
            },
    {
        match check_without_root(path) {
            Ok(()) => {},
            Err(error) => {
                return Err(error);
            },
        }
        if path.is_empty() {
            proof {
                use_type_invariant(&*self);
                lemma_elements_of_path(seq![]);
                assert(path@ =~= seq![]);
                lemma_elements_empty();
                assert(self.elements() + elements(path@) =~= self.elements());
            }
            return Ok(());
        }
        if path.get_char(0) == '/' {
            self.push(ObjectPath { inner: path });
            return Ok(());
        }
        let mut absolute = "/".to_owned();
        absolute.append(path);
        proof {
            reveal_strlit("/");
            assert("/"@ =~= seq!['/']);
            assert(absolute@ =~= seq!['/'] + path@);
            lemma_first_fault_none(path@, 0);
            assert forall|i: int| 0 <= i < absolute@.len() implies fault_at(
                absolute@,
                i,
            ) is None by {
                if i > 0 {
                    assert(fault_at(path@, i - 1) is None);
                }
            }
            assert(absolute@.last() == path@.last());
            lemma_valid_path(absolute@);
            assert(absolute@ =~= Seq::<char>::empty() + seq!['/'] + path@);
            lemma_elements_join(seq![], path@);
            lemma_elements_empty();
            assert(elements(absolute@) =~= elements(path@));
        }
        self.push(ObjectPath { inner: absolute.as_str() });
        Ok(())
    }

    /// Removes the last element. Returns whether there was one.
    pub fn pop(&mut self) -> (changed: bool)
        ensures
            changed == (old(self).elements().len() > 0),
            valid_path(final(self)@),
            changed ==> final(self).elements() == old(self).elements().drop_last(),
            !changed ==> final(self)@ == old(self)@,
    {
        proof {
            use_type_invariant(&*self);
            lemma_elements_of_path(seq![]);
        }
        let (length, path): (usize, ObjectPath) = match self.as_object_path().parent() {
            Some(parent) => (parent.as_bytes().len(), parent),
            None => {
                return false;
            },
        };
        proof {
            lemma_path_of_elements(self@);
            lemma_valid_path_ascii(self@);
            let names = self.elements();
            let front = names.drop_last();
            assert forall|i: int| 0 <= i < front.len() implies valid_element(#[trigger] front[i]) by {
                assert(front[i] == names[i]);
            }
            lemma_elements_of_path(front);
            lemma_valid_path_ascii(path_of(front));
            is_ascii_chars_encode_utf8(path_of(front));
            lemma_same_elements(path@, path_of(front));
            assert(self@.take(length as int) =~= path_of(front));
        }
        let mut inner = self.take_text();
        if length <= 1 {
            inner.clear();
        } else {
            inner.truncate(length);
        }
        self.inner = Some(inner);
        true
    }

    /// Makes room for `additional` more bytes.
    pub fn reserve(&mut self, additional: usize)
        requires
            old(self)@.len() + additional <= isize::MAX,
        ensures
            final(self)@ == old(self)@,
            final(self).unallocated() == (old(self).unallocated() && additional == 0),
    {
        proof {
            use_type_invariant(&*self);
            self.lemma_byte_length();
        }
        if additional == 0 {
            return;
        }
        let mut inner = self.take_text();
        if inner.as_str().is_empty() {
            inner.reserve(additional + 1);
        } else {
            inner.reserve(additional);
        }
        self.inner = Some(inner);
    }

    /// Makes room for `additional` more bytes, without asking for more than that.
    pub fn reserve_exact(&mut self, additional: usize)
        requires
            old(self)@.len() + additional <= isize::MAX,
        ensures
            final(self)@ == old(self)@,
            final(self).unallocated() == (old(self).unallocated() && additional == 0),
    {
        proof {
            use_type_invariant(&*self);
            self.lemma_byte_length();
        }
        if additional == 0 {
            return;
        }
        let mut inner = self.take_text();
        if inner.as_str().is_empty() {
            inner.reserve_exact(additional + 1);
        } else {
            inner.reserve_exact(additional);
        }
        self.inner = Some(inner);
    }

    /// The number of bytes that fit in the current allocation. It is zero where there is none,
    /// and then the path is the root path. Every other path fits in its allocation.
    pub fn capacity(&self) -> (capacity: usize)
        ensures
            capacity == 0 ==> self@ == seq!['/'],
            self@ != seq!['/'] ==> encode_utf8(self@).len() <= capacity,
            self.unallocated() ==> capacity == 0,
    {
        proof {
            use_type_invariant(self);
            self.lemma_byte_length();
        }
        match &self.inner {
            Some(text) => text.capacity(),
            None => 0,
        }
    }
}

/// What it takes to be an object path: it starts with `/`, every other character is one of an
/// element or `/`, there are no two `/` in a row, and the last character is no `/` but in the
/// root path.
pub proof fn law_object_path_rules(path: Seq<char>)
    ensures
        valid_path(path) <==> {
            &&& path.len() > 0
            &&& path[0] == '/'
            &&& forall|i: int|
                0 <= i < path.len() ==> (#[trigger] path[i] == '/' || element_char(path[i]))
            &&& forall|i: int|
                1 <= i < path.len() ==> !(#[trigger] path[i] == '/' && path[i - 1] == '/')
            &&& (path.len() == 1 || path.last() != '/')
        },
{
    lemma_valid_path(path);
    if valid_path(path) {
        assert forall|i: int| 0 <= i < path.len() implies (#[trigger] path[i] == '/'
            || element_char(path[i])) && !(i > 0 && path[i] == '/' && path[i - 1] == '/') by {
            assert(fault_at(path, i) is None);
        }
    }
}

/// The path that comes out of appending one path to another starts with the first one, and
/// without that it is the second one.
pub proof fn law_push_then_strip(a: Seq<char>, b: Seq<char>, pushed: Seq<char>, stripped: Seq<char>)
    requires
        valid_path(a),
        valid_path(b),
        valid_path(pushed),
        elements(pushed) == elements(a) + elements(b),
    ensures
        path_starts_with(pushed, a),
        valid_path(stripped) && elements(stripped) == elements(pushed).skip(
            elements(a).len() as int,
        ) ==> stripped == b,
{
    lemma_starts_valid_path(pushed, a);
    lemma_valid_path(a);
    assert(elements(a) =~= elements(pushed).subrange(0, elements(a).len() as int));
    assert(elements(pushed).skip(elements(a).len() as int) =~= elements(b));
    if valid_path(stripped) && elements(stripped) == elements(b) {
        lemma_same_elements(stripped, b);
    }
}

/// A path is its parent with its last element behind it.
pub proof fn law_parent_and_name(path: Seq<char>)
    requires
        valid_path(path),
        elements(path).len() > 0,
    ensures
        valid_path(path_of(elements(path).drop_last())),
        path == path_of(elements(path).drop_last().push(elements(path).last())),
{
    lemma_path_of_elements(path);
    let names = elements(path);
    assert forall|i: int| 0 <= i < names.drop_last().len() implies valid_element(
        #[trigger] names.drop_last()[i],
    ) by {
        assert(valid_element(names[i]));
    }
    lemma_elements_of_path(names.drop_last());
    assert(names.drop_last().push(names.last()) =~= names);
}

/// The character is a letter of the English alphabet, a digit or an underscore.
pub open spec fn is_word_char(c: char) -> bool {
    let code = c as int;
    ||| 65 <= code <= 90
    ||| 97 <= code <= 122
    ||| 48 <= code <= 57
    ||| c == '_'
}

/// The first `end` characters are slashes or may stand between slashes, and no two slashes are
/// next to each other.
pub open spec fn fine_until(path: Seq<char>, end: int) -> bool {
    &&& 0 <= end <= path.len()
    &&& forall|i: int| 0 <= i < end ==> (#[trigger] path[i] == '/' || is_word_char(path[i]))
    &&& forall|i: int|
        #![trigger path[i]]
        1 <= i < end && path[i] == '/' ==> path.take(i).last() != '/'
}

proof fn lemma_fine(path: Seq<char>, end: int)
    requires
        0 <= end <= path.len(),
    ensures
        fine_until(path, end) <==> forall|i: int| 0 <= i < end ==> fault_at(path, i) is None,
{
    if fine_until(path, end) {
        assert forall|i: int| 0 <= i < end implies fault_at(path, i) is None by {
            assert(path[i] == '/' || is_word_char(path[i]));
            if i > 0 {
                assert(path.take(i).last() == path[i - 1]);
            }
        }
    }
    if forall|i: int| 0 <= i < end ==> fault_at(path, i) is None {
        assert forall|i: int| 0 <= i < end implies (#[trigger] path[i] == '/' || is_word_char(
            path[i],
        )) by {
            assert(fault_at(path, i) is None);
        }
        assert forall|i: int|
            #![trigger path[i]]
            1 <= i < end && path[i] == '/' implies path.take(i).last() != '/' by {
            assert(fault_at(path, i) is None);
            assert(path.take(i).last() == path[i - 1]);
        }
    }
}

proof fn lemma_first_fault_is(path: Seq<char>, from: int) -> (at: int)
    requires
        0 <= from,
        first_fault(path, from) is Some,
    ensures
        from <= at < path.len(),
        fault_at(path, at) == first_fault(path, from),
        forall|i: int| from <= i < at ==> fault_at(path, i) is None,
    decreases path.len() - from,
{
    if fault_at(path, from) is Some {
        from
    } else {
        lemma_first_fault_is(path, from + 1)
    }
}

/// Text is refused as an object path for the first thing that is wrong with it: it does not
/// start with a slash, a character is not allowed or a slash stands right behind another one,
/// or it ends with a slash and is more than that.
pub proof fn law_path_errors(path: Seq<char>)
    ensures
        match checked(path) {
            Ok(_) => {
                &&& path.len() > 0
                &&& path[0] == '/'
                &&& fine_until(path, path.len() as int)
                &&& (path.len() == 1 || path.last() != '/')
            },
            Err(InvalidObjectPath::NoRoot) => path.len() == 0 || path[0] != '/',
            Err(InvalidObjectPath::ContainsInvalidCharacters) => {
                &&& path[0] == '/'
                &&& exists|i: int|
                    #![trigger path[i]]
                    0 < i < path.len() && fine_until(path, i) && path[i] != '/' && !is_word_char(
                        path[i],
                    )
            },
            Err(InvalidObjectPath::ConsecutiveSlashes) => {
                &&& path[0] == '/'
                &&& exists|i: int|
                    #![trigger path[i]]
                    0 < i < path.len() && fine_until(path, i) && path[i] == '/' && path[i - 1]
                        == '/'
            },
            Err(InvalidObjectPath::TrailingSlash) => {
                &&& path[0] == '/'
                &&& path.len() > 1
                &&& fine_until(path, path.len() as int)
                &&& path.last() == '/'
            },
        },
{
    lemma_first_fault_none(path, 0);
    lemma_fine(path, path.len() as int);
    if path.len() > 0 && path[0] == '/' && first_fault(path, 0) is Some {
        let at = lemma_first_fault_is(path, 0);
        lemma_fine(path, at);
        assert(fault_at(path, 0) is None);
        assert(path[at] == '/' || !is_word_char(path[at]));
    }
}

/// The names, each behind a slash.
pub open spec fn behind_slashes(names: Seq<Seq<char>>) -> Seq<char>
    decreases names.len(),
{
    if names.len() == 0 {
        seq![]
    } else {
        seq!['/'] + names[0] + behind_slashes(names.skip(1))
    }
}

proof fn lemma_joined_is(names: Seq<Seq<char>>)
    ensures
        joined(names) == behind_slashes(names),
    decreases names.len(),
{
    if names.len() > 0 {
        assert(names =~= seq![names[0]] + names.skip(1));
        lemma_joined_concat(seq![names[0]], names.skip(1));
        lemma_joined_single(names[0]);
        lemma_joined_is(names.skip(1));
        assert(joined(names) =~= behind_slashes(names));
    }
}

/// The elements of an object path are what stands between its slashes: none is empty or holds
/// a slash, and with a slash before each of them they make the path. The root path has none.
pub proof fn law_elements_make_the_path(path: Seq<char>)
    requires
        valid_path(path),
    ensures
        elements(path).len() == 0 <==> path == seq!['/'],
        path != seq!['/'] ==> behind_slashes(elements(path)) == path,
        forall|i: int|
            0 <= i < elements(path).len() ==> (#[trigger] elements(path)[i]).len() > 0
                && !elements(path)[i].contains('/'),
{
    lemma_path_of_elements(path);
    lemma_joined_is(elements(path));
    if elements(path).len() > 0 {
        let first = elements(path)[0];
        assert(valid_element(first));
        assert(path.len() > 1) by {
            assert(path =~= seq!['/'] + first + behind_slashes(elements(path).skip(1)));
        }
    }
    assert forall|i: int| 0 <= i < elements(path).len() implies (#[trigger] elements(
        path,
    )[i]).len() > 0 && !elements(path)[i].contains('/') by {
        let name = elements(path)[i];
        assert(valid_element(name));
        if name.contains('/') {
            let j = name.index_of('/');
            assert(element_char(name[j]));
        }
    }
}

/// The text `base` is the path itself or one that it lies below.
pub open spec fn same_or_above(base: Seq<char>, path: Seq<char>) -> bool {
    ||| base == path
    ||| base == seq!['/']
    ||| base.len() < path.len() && path.take(base.len() as int) == base && path[base.len() as int]
        == '/'
}

/// An object path starts with another one if it is that path or continues it behind a slash.
pub proof fn law_starts_with_text(path: Seq<char>, base: Seq<char>)
    requires
        valid_path(path),
        valid_path(base),
    ensures
        path_starts_with(path, base) <==> same_or_above(base, path),
{
    lemma_starts_valid_path(path, base);
    lemma_valid_path(base);
    lemma_path_of_elements(path);
    lemma_path_of_elements(base);
    law_elements_make_the_path(base);
    let (own, other) = (elements(path), elements(base));
    if other.is_prefix_of(own) {
        let rest = own.skip(other.len() as int);
        assert(own =~= other + rest);
        lemma_joined_concat(other, rest);
        if rest.len() == 0 {
            assert(own =~= other);
        } else if other.len() > 0 {
            lemma_joined_is(rest);
            assert(path =~= base + joined(rest));
            assert(path.take(base.len() as int) =~= base);
        }
    }
    if same_or_above(base, path) {
        if base == path {
            assert(other =~= own.subrange(0, own.len() as int));
        } else if base == seq!['/'] {
            assert(other =~= own.subrange(0, 0));
        } else {
            let tail = path.skip(base.len() as int + 1);
            assert(path =~= base + seq!['/'] + tail);
            lemma_elements_join(base, tail);
            assert(other =~= own.subrange(0, other.len() as int));
        }
    }
}

/// An object path that was appended to another one stands behind it, and the root path adds
/// nothing.
pub proof fn law_push_text(a: Seq<char>, b: Seq<char>, pushed: Seq<char>)
    requires
        valid_path(a),
        valid_path(b),
        valid_path(pushed),
        elements(pushed) == elements(a) + elements(b),
    ensures
        a == seq!['/'] ==> pushed == b,
        b == seq!['/'] ==> pushed == a,
        a != seq!['/'] && b != seq!['/'] ==> pushed == a + b,
{
    law_elements_make_the_path(a);
    law_elements_make_the_path(b);
    law_elements_make_the_path(pushed);
    lemma_path_of_elements(a);
    lemma_path_of_elements(b);
    lemma_path_of_elements(pushed);
    lemma_joined_concat(elements(a), elements(b));
    if a == seq!['/'] {
        assert(elements(pushed) =~= elements(b));
        lemma_same_elements(pushed, b);
    }
    if b == seq!['/'] {
        assert(elements(pushed) =~= elements(a));
        lemma_same_elements(pushed, a);
    }
}

/// The parent of an object path is what stands before its last slash, or the root path where
/// that is nothing, and its name is what stands behind that slash.
pub proof fn law_parent_and_name_text(path: Seq<char>, parent: Seq<char>, name: Seq<char>)
    requires
        valid_path(path),
        valid_path(parent),
        elements(path).len() > 0,
        elements(parent) == elements(path).drop_last(),
        name == elements(path).last(),
    ensures
        name.len() > 0,
        !name.contains('/'),
        parent == seq!['/'] ==> path == seq!['/'] + name,
        parent != seq!['/'] ==> path == parent + seq!['/'] + name,
{
    law_elements_make_the_path(path);
    law_elements_make_the_path(parent);
    lemma_path_of_elements(path);
    lemma_path_of_elements(parent);
    let last = elements(path).len() - 1;
    assert(elements(path)[last] == name);
    assert(joined(elements(path)) =~= joined(elements(parent)) + seq!['/'] + name);
    if parent == seq!['/'] {
        assert(elements(parent) =~= seq![]);
        assert(path =~= seq!['/'] + name);
    }
}

/// What is left of an object path without a prefix is the text behind the prefix, or the root
/// path where that is nothing.
pub proof fn law_strip_text(path: Seq<char>, prefix: Seq<char>, stripped: Seq<char>)
    requires
        valid_path(path),
        valid_path(prefix),
        valid_path(stripped),
        path_starts_with(path, prefix),
        elements(stripped) == elements(path).skip(elements(prefix).len() as int),
    ensures
        prefix == seq!['/'] ==> stripped == path,
        prefix == path ==> stripped == seq!['/'],
        prefix != seq!['/'] && prefix != path ==> path == prefix + stripped,
{
    lemma_starts_valid_path(path, prefix);
    lemma_valid_path(prefix);
    law_elements_make_the_path(prefix);
    law_elements_make_the_path(stripped);
    assert(elements(path) =~= elements(prefix) + elements(stripped));
    law_push_text(prefix, stripped, path);
}

/// Every object path starts with the empty text, none starts with a relative path, and a slash
/// at the end of a path makes no difference.
pub proof fn law_other_prefixes(path: Seq<char>, base: Seq<char>)
    requires
        valid_path(path),
    ensures
        base.len() == 0 ==> path_starts_with(path, base),
        base.len() > 0 && base[0] != '/' ==> !path_starts_with(path, base),
        valid_path(base) ==> path_starts_with(path, base + seq!['/']) == path_starts_with(
            path,
            base,
        ),
{
    lemma_starts_valid_path(path, base);
    if valid_path(base) {
        lemma_valid_path(base);
        lemma_starts_valid_path(path, base + seq!['/']);
        lemma_elements_join(base, seq![]);
        lemma_elements_empty();
        assert(base + seq!['/'] + seq![] =~= base + seq!['/']);
        assert(elements(base) + elements(seq![]) =~= elements(base));
        assert((base + seq!['/'])[0] == base[0]);
    }
}

/// A relative path that was appended stands behind the path, with a slash between them. What may
/// be appended is what obeys the rules of paths but for the slash at the start.
pub proof fn law_push_relative_text(a: Seq<char>, b: Seq<char>, pushed: Seq<char>)
    requires
        valid_path(a),
        checked_without_root(b) is Ok,
        b.len() > 0,
        b[0] != '/',
        valid_path(pushed),
        elements(pushed) == elements(a) + elements(b),
    ensures
        a == seq!['/'] ==> pushed == seq!['/'] + b,
        a != seq!['/'] ==> pushed == a + seq!['/'] + b,
{
    let absolute = seq!['/'] + b;
    lemma_first_fault_none(b, 0);
    assert forall|i: int| 0 <= i < absolute.len() implies fault_at(absolute, i) is None by {
        if i > 0 {
            assert(fault_at(b, i - 1) is None);
        }
    }
    assert(absolute.last() == b.last());
    lemma_valid_path(absolute);
    assert(absolute =~= Seq::<char>::empty() + seq!['/'] + b);
    lemma_elements_join(seq![], b);
    lemma_elements_empty();
    assert(elements(absolute) =~= elements(b));
    law_push_text(a, absolute, pushed);
    assert(absolute.len() > 1);
    assert(a + absolute =~= a + seq!['/'] + b);
}

/// What may be appended to a path: text of the allowed characters without two slashes next to
/// each other, which does not end with a slash unless it is one.
pub proof fn law_what_may_be_appended(path: Seq<char>)
    ensures
        checked_without_root(path) is Ok <==> fine_until(path, path.len() as int) && (path.len() <= 1
            || path.last() != '/'),
{
    lemma_first_fault_none(path, 0);
    lemma_fine(path, path.len() as int);
}

} // verus!
