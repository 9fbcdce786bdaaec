//! The addresses of buses.
use vstd::prelude::*;
use vstd::utf8::*;

use crate::text;

verus! {

/// Where the system bus listens.
pub const DBUS_SYS_PATH: &'static str = "/run/dbus/system_bus_socket";

/// The environment variable that holds the address of the session bus.
pub const DBUS_SESS_ENV: &'static str = "DBUS_SESSION_BUS_ADDRESS";

/// The address of a bus.
#[derive(Debug, PartialEq, Eq)]
pub enum DBusAddr<P, S> {
    /// A socket in the file system.
    Path(P),
    /// A host and a port.
    Tcp(S),
    /// A socket in the abstract namespace.
    Abstract(Vec<u8>),
}

/// Why an address cannot be used.
#[derive(Clone, Copy, Debug, PartialEq, Eq, Structural)]
pub enum AddrError {
    /// The address of the session bus is not one.
    Invalid,
    /// The name of an abstract socket does not fit into a socket address.
    TooLong,
}

/// The value of the last pair with the given name. A pair is a name and a value with one equals
/// sign between them; anything else does not count.
pub open spec fn last_value(pairs: Seq<Seq<u8>>, name: Seq<u8>) -> Option<Seq<u8>>
    decreases pairs.len(),
{
    if pairs.len() == 0 {
        None
    } else {
        let parts = text::split_on(pairs.last(), 0x3du8);
        if parts.len() == 2 && parts[0] == name {
            Some(parts[1])
        } else {
            last_value(pairs.drop_last(), name)
        }
    }
}

/// The value that an address gives to a name: the pairs stand behind the first colon, with commas
/// between them.
pub open spec fn addr_value(addr: Seq<u8>, name: Seq<u8>) -> Option<Seq<u8>> {
    last_value(text::split_on(addr.skip(text::first_index(addr, 0x3au8) + 1), 0x2cu8), name)
}

/// The family of an address: what stands before the first colon.
pub open spec fn addr_family(addr: Seq<u8>) -> Seq<u8> {
    addr.take(text::first_index(addr, 0x3au8))
}

/// The bytes of `unix`.
pub open spec fn unix_family() -> Seq<u8> {
    seq![0x75u8, 0x6e, 0x69, 0x78]
}

/// The bytes of `tcp`.
pub open spec fn tcp_family() -> Seq<u8> {
    seq![0x74u8, 0x63, 0x70]
}

/// The bytes of `abstract`.
pub open spec fn abstract_key() -> Seq<u8> {
    seq![0x61u8, 0x62, 0x73, 0x74, 0x72, 0x61, 0x63, 0x74]
}

/// The bytes of `path`.
pub open spec fn path_key() -> Seq<u8> {
    seq![0x70u8, 0x61, 0x74, 0x68]
}

/// The bytes of `host`.
pub open spec fn host_key() -> Seq<u8> {
    seq![0x68u8, 0x6f, 0x73, 0x74]
}

/// The bytes of `port`.
pub open spec fn port_key() -> Seq<u8> {
    seq![0x70u8, 0x6f, 0x72, 0x74]
}

/// Calls `std::str::from_utf8`: the text with these bytes, where they are UTF-8.
#[verifier::external_body]
fn utf8_text(bytes: &[u8]) -> (s: Option<&str>)
    ensures
        match s {
            Some(s) => encode_utf8(s@) == bytes@,
            None => !valid_utf8(bytes@),
        },
{
    std::str::from_utf8(bytes).ok()
}

/// The position of the first `item`, or the length where there is none.
fn position(bytes: &[u8], item: u8) -> (index: usize)
    ensures
        index == text::first_index(bytes@, item),
        index <= bytes@.len(),
{
    let mut i: usize = 0;
    proof {
        text::lemma_first_index(bytes@, item);
    }
    while i < bytes.len()
        invariant
            i <= bytes@.len(),
            forall|j: int| 0 <= j < i ==> bytes@[j] != item,
        decreases bytes@.len() - i,
    {
        if bytes[i] == item {
            proof {
                text::lemma_first_index_is(bytes@, item, i as int);
            }
            return i;
        }
        i += 1;
    }
    i
}

/// The parts of `bytes` between the occurrences of `sep`.
fn split_bytes(bytes: &[u8], sep: u8) -> (parts: Vec<&[u8]>)
    ensures
        parts@.map_values(|p: &[u8]| p@) == text::split_on(bytes@, sep),
{
    let mut parts: Vec<&[u8]> = Vec::new();
    let mut rest = bytes;
    loop
        invariant
            parts@.map_values(|p: &[u8]| p@) + text::split_on(rest@, sep) == text::split_on(
                bytes@,
                sep,
            ),
        decreases rest@.len(),
    {
        let ghost before = parts@.map_values(|p: &[u8]| p@);
        let i: usize = position(rest, sep);
        proof {
            text::lemma_first_index(rest@, sep);
        }
        if i == rest.len() {
            parts.push(rest);
            assert(parts@.map_values(|p: &[u8]| p@) =~= before + seq![rest@]);
            return parts;
        }
        let head = vstd::slice::slice_subrange(rest, 0, i);
        let tail = vstd::slice::slice_subrange(rest, i + 1, rest.len());
        parts.push(head);
        proof {
            assert(head@ =~= rest@.take(i as int));
            assert(tail@ =~= rest@.skip(i as int + 1));
            assert(parts@.map_values(|p: &[u8]| p@) =~= before.push(head@));
            assert(before.push(head@) + text::split_on(tail@, sep) =~= before + (seq![head@]
                + text::split_on(tail@, sep)));
        }
        rest = tail;
    }
}

/// The value of the last pair with the given name.
fn value_of<'a>(pairs: &Vec<&'a [u8]>, name: &[u8]) -> (value: Option<&'a [u8]>)
    ensures
        match value {
            Some(value) => last_value(pairs@.map_values(|p: &[u8]| p@), name@) == Some(value@),
            None => last_value(pairs@.map_values(|p: &[u8]| p@), name@) is None,
        },
{
    let ghost all = pairs@.map_values(|p: &[u8]| p@);
    let mut i: usize = pairs.len();
    assert(all.take(i as int) =~= all);
    while i > 0
        invariant
            i <= pairs@.len(),
            all == pairs@.map_values(|p: &[u8]| p@),
            last_value(all, name@) == last_value(all.take(i as int), name@),
        decreases i,
    {
        i -= 1;
        let ghost front = all.take(i as int + 1);
        assert(front.drop_last() =~= all.take(i as int));
        assert(front.last() == pairs@[i as int]@);
        let parts = split_bytes(pairs[i], 0x3d);
        let ghost part_views = parts@.map_values(|p: &[u8]| p@);
        assert(part_views == text::split_on(front.last(), 0x3du8));
        if parts.len() == 2 {
            assert(part_views[0] == parts@[0]@ && part_views[1] == parts@[1]@);
            if text::bytes_eq(parts[0], name) {
                return Some(parts[1]);
            }
        }
    }
    assert(all.take(0) =~= seq![]);
    None
}

/// Whether the address names a host and a port that are text.
pub open spec fn tcp_addr(addr: Seq<u8>) -> bool {
    &&& addr_value(addr, host_key()) matches Some(host) && valid_utf8(host)
    &&& addr_value(addr, port_key()) matches Some(port) && valid_utf8(port)
}

/// Whether `result` is what the address of a session bus stands for.
pub open spec fn session_addr(
    addr: Seq<u8>,
    result: Result<DBusAddr<Vec<u8>, String>, AddrError>,
) -> bool {
    let family = addr_family(addr);
    if !addr.contains(0x3au8) {
        result matches Err(AddrError::Invalid)
    } else if family == unix_family() {
        match (addr_value(addr, abstract_key()), addr_value(addr, path_key())) {
            (Some(name), _) => result matches Ok(DBusAddr::Abstract(n)) && n@ == name,
            (None, Some(path)) => result matches Ok(DBusAddr::Path(p)) && p@ == path,
            (None, None) => result matches Err(AddrError::Invalid),
        }
    } else if family == tcp_family() && tcp_addr(addr) {
        result matches Ok(DBusAddr::Tcp(s)) && encode_utf8(s@) == addr_value(
            addr,
            host_key(),
        )->Some_0 + seq![0x3au8] + addr_value(addr, port_key())->Some_0
    } else {
        result matches Err(AddrError::Invalid)
    }
}

/// Understands the address of a session bus. A socket in the file system may not exist.
pub fn parse_session_bus_addr(addr: &[u8]) -> (result: Result<
    DBusAddr<Vec<u8>, String>,
    AddrError,
>)
    ensures
        session_addr(addr@, result),
{
    let colon: usize = position(addr, 0x3a);
    proof {
        text::lemma_first_index(addr@, 0x3au8);
    }
    if colon == addr.len() {
        return Err(AddrError::Invalid);
    }
    let family = vstd::slice::slice_subrange(addr, 0, colon);
    let data = vstd::slice::slice_subrange(addr, colon + 1, addr.len());
    assert(family@ =~= addr_family(addr@));
    assert(data@ =~= addr@.skip(colon + 1));
    let pairs = split_bytes(data, 0x2c);
    let unix: [u8; 4] = [0x75, 0x6e, 0x69, 0x78];
    let tcp: [u8; 3] = [0x74, 0x63, 0x70];
    let abstract_name: [u8; 8] = [0x61, 0x62, 0x73, 0x74, 0x72, 0x61, 0x63, 0x74];
    let path_name: [u8; 4] = [0x70, 0x61, 0x74, 0x68];
    let host_name: [u8; 4] = [0x68, 0x6f, 0x73, 0x74];
    let port_name: [u8; 4] = [0x70, 0x6f, 0x72, 0x74];
    assert(unix@ =~= unix_family());
    assert(tcp@ =~= tcp_family());
    assert(abstract_name@ =~= abstract_key());
    assert(path_name@ =~= path_key());
    assert(host_name@ =~= host_key());
    assert(port_name@ =~= port_key());
    if text::bytes_eq(family, unix.as_slice()) {
        if let Some(name) = value_of(&pairs, abstract_name.as_slice()) {
            return Ok(DBusAddr::Abstract(vstd::slice::slice_to_vec(name)));
        }
        if let Some(path) = value_of(&pairs, path_name.as_slice()) {
            return Ok(DBusAddr::Path(vstd::slice::slice_to_vec(path)));
        }
        return Err(AddrError::Invalid);
    }
    if !text::bytes_eq(family, tcp.as_slice()) {
        return Err(AddrError::Invalid);
    }
    assert(unix_family().len() != tcp_family().len());
    let host = match value_of(&pairs, host_name.as_slice()) {
        Some(host) => host,
        None => {
            return Err(AddrError::Invalid);
        },
    };
    let port = match value_of(&pairs, port_name.as_slice()) {
        Some(port) => port,
        None => {
            return Err(AddrError::Invalid);
        },
    };
    match (utf8_text(host), utf8_text(port)) {
        (Some(host), Some(port)) => {
            proof {
                encode_utf8_valid_utf8(host@);
                encode_utf8_valid_utf8(port@);
                reveal_strlit(":");
                assert(":"@ =~= seq![':']);
                assert(is_ascii_chars(":"@));
                is_ascii_chars_encode_utf8(":"@);
                assert(encode_utf8(":"@) =~= seq![0x3au8]);
                text::lemma_encode_utf8_concat(host@, ":"@);
                text::lemma_encode_utf8_concat(host@ + ":"@, port@);
            }
            let mut s = host.to_owned();
            s.append(":");
            s.append(port);
            Ok(DBusAddr::Tcp(s))
        },
        _ => Err(AddrError::Invalid),
    }
}

/// The path in the socket address of an abstract socket, which has `size` bytes: a zero byte, the
/// name and zero bytes up to the end.
pub fn abstract_socket_path(name: &[u8], size: usize) -> (result: Result<Vec<u8>, AddrError>)
    ensures
        match result {
            Ok(path) => {
                &&& 1 + name@.len() <= size
                &&& path@ == seq![0u8] + name@ + crate::rustbus_core::wire_format::zeros(
                    size - 1 - name@.len(),
                )
                &&& path@.len() == size
                &&& path@[0] == 0
                &&& path@.subrange(1, 1 + name@.len() as int) == name@
                &&& forall|i: int| 1 + name@.len() <= i < size ==> path@[i] == 0
            },
            Err(error) => 1 + name@.len() > size && error is TooLong,
        },
{
    if size == 0 || name.len() > size - 1 {
        return Err(AddrError::TooLong);
    }
    let mut path: Vec<u8> = Vec::new();
    path.push(0);
    let mut i: usize = 0;
    while i < name.len()
        invariant
            i <= name@.len(),
            path@ == seq![0u8] + name@.take(i as int),
        decreases name@.len() - i,
    {
        path.push(name[i]);
        i += 1;
        assert(path@ =~= seq![0u8] + name@.take(i as int));
    }
    assert(name@.take(i as int) =~= name@);
    let ghost start = path@;
    while path.len() < size
        invariant
            start.len() <= path@.len() <= size,
            path@ == start + crate::rustbus_core::wire_format::zeros(path@.len() - start.len()),
        decreases size - path@.len(),
    {
        path.push(0);
        assert(path@ =~= start + crate::rustbus_core::wire_format::zeros(
            path@.len() - start.len(),
        ));
    }
    assert(path@.subrange(1, 1 + name@.len() as int) =~= name@);
    Ok(path)
}

// ---------------------------------------------------------------------------
// What an address says
// ---------------------------------------------------------------------------

/// The bytes of ASCII text.
pub open spec fn ascii(s: Seq<char>) -> Seq<u8> {
    Seq::new(s.len(), |i: int| s[i] as u8)
}

/// Parts with commas between them.
pub open spec fn comma_list(parts: Seq<Seq<u8>>) -> Seq<u8>
    decreases parts.len(),
{
    if parts.len() == 0 {
        seq![]
    } else if parts.len() == 1 {
        parts[0]
    } else {
        parts[0] + seq![',' as u8] + comma_list(parts.skip(1))
    }
}

/// The pairs, each as a name and a value with an equals sign between them.
pub open spec fn pair_texts(pairs: Seq<(Seq<u8>, Seq<u8>)>) -> Seq<Seq<u8>> {
    pairs.map_values(|pair: (Seq<u8>, Seq<u8>)| pair.0 + seq!['=' as u8] + pair.1)
}

/// An address: its family, a colon, and names with their values.
pub open spec fn spelled(family: Seq<u8>, pairs: Seq<(Seq<u8>, Seq<u8>)>) -> Seq<u8> {
    family + seq![':' as u8] + comma_list(pair_texts(pairs))
}

/// The value that the last pair with the name has.
pub open spec fn value_given(pairs: Seq<(Seq<u8>, Seq<u8>)>, name: Seq<u8>) -> Option<Seq<u8>>
    decreases pairs.len(),
{
    if pairs.len() == 0 {
        None
    } else if pairs.last().0 == name {
        Some(pairs.last().1)
    } else {
        value_given(pairs.drop_last(), name)
    }
}

/// No name and no value holds a comma or an equals sign.
pub open spec fn plain_pairs(pairs: Seq<(Seq<u8>, Seq<u8>)>) -> bool {
    forall|i: int|
        #![trigger pairs[i]]
        0 <= i < pairs.len() ==> {
            &&& !pairs[i].0.contains(',' as u8)
            &&& !pairs[i].0.contains('=' as u8)
            &&& !pairs[i].1.contains(',' as u8)
            &&& !pairs[i].1.contains('=' as u8)
        }
}

proof fn lemma_split_one(part: Seq<u8>, sep: u8)
    requires
        !part.contains(sep),
    ensures
        text::split_on(part, sep) == seq![part],
{
    text::lemma_first_index(part, sep);
}

proof fn lemma_split_first(part: Seq<u8>, sep: u8, rest: Seq<u8>)
    requires
        !part.contains(sep),
    ensures
        text::first_index(part + seq![sep] + rest, sep) == part.len(),
        text::split_on(part + seq![sep] + rest, sep) == seq![part] + text::split_on(rest, sep),
{
    let all = part + seq![sep] + rest;
    assert forall|j: int| 0 <= j < part.len() implies all[j] != sep by {
        assert(part.contains(part[j]));
        assert(all[j] == part[j]);
    }
    text::lemma_first_index_is(all, sep, part.len() as int);
    assert(all.take(part.len() as int) =~= part);
    assert(all.skip(part.len() as int + 1) =~= rest);
}

proof fn lemma_split_list(parts: Seq<Seq<u8>>)
    requires
        parts.len() > 0,
        forall|i: int| 0 <= i < parts.len() ==> !(#[trigger] parts[i]).contains(0x2cu8),
    ensures
        text::split_on(comma_list(parts), 0x2cu8) == parts,
    decreases parts.len(),
{
    if parts.len() == 1 {
        lemma_split_one(parts[0], 0x2cu8);
        assert(parts =~= seq![parts[0]]);
    } else {
        let rest = parts.skip(1);
        assert forall|i: int| 0 <= i < rest.len() implies !(#[trigger] rest[i]).contains(0x2cu8) by {
            assert(rest[i] == parts[i + 1]);
        }
        lemma_split_list(rest);
        assert(!parts[0].contains(0x2cu8));
        lemma_split_first(parts[0], 0x2cu8, comma_list(rest));
        assert(parts =~= seq![parts[0]] + rest);
    }
}

proof fn lemma_last_value(pairs: Seq<(Seq<u8>, Seq<u8>)>, name: Seq<u8>)
    requires
        plain_pairs(pairs),
    ensures
        last_value(pair_texts(pairs), name) == value_given(pairs, name),
    decreases pairs.len(),
{
    if pairs.len() > 0 {
        let front = pairs.drop_last();
        assert forall|i: int| #![trigger front[i]] 0 <= i < front.len() implies {
            &&& !front[i].0.contains(',' as u8)
            &&& !front[i].0.contains('=' as u8)
            &&& !front[i].1.contains(',' as u8)
            &&& !front[i].1.contains('=' as u8)
        } by {
            assert(front[i] == pairs[i]);
        }
        lemma_last_value(front, name);
        let all = pair_texts(pairs);
        assert(all.drop_last() =~= pair_texts(front));
        let (key, value) = pairs[pairs.len() - 1];
        assert(all.last() == key + seq![0x3du8] + value);
        lemma_split_first(key, 0x3du8, value);
        lemma_split_one(value, 0x3du8);
        let parts = text::split_on(all.last(), 0x3du8);
        assert(parts =~= seq![key, value]);
    }
}

proof fn lemma_spelled(family: Seq<u8>, pairs: Seq<(Seq<u8>, Seq<u8>)>, name: Seq<u8>)
    requires
        !family.contains(':' as u8),
        pairs.len() > 0,
        plain_pairs(pairs),
    ensures
        addr_family(spelled(family, pairs)) == family,
        spelled(family, pairs).contains(0x3au8),
        addr_value(spelled(family, pairs), name) == value_given(pairs, name),
{
    let addr = spelled(family, pairs);
    let list = comma_list(pair_texts(pairs));
    lemma_split_first(family, 0x3au8, list);
    assert(addr.take(family.len() as int) =~= family);
    assert(addr.skip(family.len() as int + 1) =~= list);
    assert(addr[family.len() as int] == 0x3au8);
    let parts = pair_texts(pairs);
    assert forall|i: int| 0 <= i < parts.len() implies !(#[trigger] parts[i]).contains(0x2cu8) by {
        let (key, value) = pairs[i];
        let part = key + seq![0x3du8] + value;
        assert(parts[i] == part);
        if part.contains(0x2cu8) {
            let j = choose|j: int| 0 <= j < part.len() && part[j] == 0x2cu8;
            if j < key.len() {
                assert(key[j] == 0x2cu8);
            } else {
                assert(value[j - key.len() - 1] == 0x2cu8);
            }
        }
    }
    lemma_split_list(parts);
    lemma_last_value(pairs, name);
}

proof fn lemma_names()
    ensures
        ascii("unix"@) == unix_family(),
        ascii("tcp"@) == tcp_family(),
        ascii("abstract"@) == abstract_key(),
        ascii("path"@) == path_key(),
        ascii("host"@) == host_key(),
        ascii("port"@) == port_key(),
        ascii("unix"@) != ascii("tcp"@),
{
    reveal_strlit("unix");
    reveal_strlit("tcp");
    reveal_strlit("abstract");
    reveal_strlit("path");
    reveal_strlit("host");
    reveal_strlit("port");
    assert(ascii("unix"@) =~= unix_family());
    assert(ascii("tcp"@) =~= tcp_family());
    assert(ascii("abstract"@) =~= abstract_key());
    assert(ascii("path"@) =~= path_key());
    assert(ascii("host"@) =~= host_key());
    assert(ascii("port"@) =~= port_key());
    assert(unix_family().len() != tcp_family().len());
}

/// An address that is spelled out as a family and pairs is understood as it says: a Unix socket
/// by its `abstract` name, or else by its `path`, and a TCP socket by its `host` and `port` with
/// a colon between them. The last pair with a name counts. Anything else is refused.
pub proof fn law_addresses_mean_what_they_say(
    family: Seq<u8>,
    pairs: Seq<(Seq<u8>, Seq<u8>)>,
    result: Result<DBusAddr<Vec<u8>, String>, AddrError>,
)
    requires
        !family.contains(':' as u8),
        pairs.len() > 0,
        plain_pairs(pairs),
        session_addr(spelled(family, pairs), result),
    ensures
        family == ascii("unix"@) ==> match (
            value_given(pairs, ascii("abstract"@)),
            value_given(pairs, ascii("path"@)),
        ) {
            (Some(name), _) => result matches Ok(DBusAddr::Abstract(own)) && own@ == name,
            (None, Some(path)) => result matches Ok(DBusAddr::Path(own)) && own@ == path,
            (None, None) => result is Err,
        },
        family == ascii("tcp"@) ==> match (
            value_given(pairs, ascii("host"@)),
            value_given(pairs, ascii("port"@)),
        ) {
            (Some(host), Some(port)) => if valid_utf8(host) && valid_utf8(port) {
                result matches Ok(DBusAddr::Tcp(s)) && encode_utf8(s@) == host + seq![':' as u8]
                    + port
            } else {
                result is Err
            },
            _ => result is Err,
        },
        family != ascii("unix"@) && family != ascii("tcp"@) ==> result is Err,
        result matches Err(error) ==> error is Invalid,
{
    lemma_names();
    lemma_spelled(family, pairs, abstract_key());
    lemma_spelled(family, pairs, path_key());
    lemma_spelled(family, pairs, host_key());
    lemma_spelled(family, pairs, port_key());
}

/// An address without a colon is refused.
pub proof fn law_addresses_have_a_family(
    addr: Seq<u8>,
    result: Result<DBusAddr<Vec<u8>, String>, AddrError>,
)
    requires
        session_addr(addr, result),
        forall|i: int| 0 <= i < addr.len() ==> #[trigger] addr[i] as int != ':' as int,
    ensures
        result matches Err(AddrError::Invalid),
{
    if addr.contains(0x3au8) {
        let i = choose|i: int| 0 <= i < addr.len() && addr[i] == 0x3au8;
        assert(addr[i] as int == ':' as int);
    }
}

/// Where the buses are looked for.
pub proof fn law_default_addresses()
    ensures
        DBUS_SYS_PATH@ == "/run/dbus/system_bus_socket"@,
        DBUS_SESS_ENV@ == "DBUS_SESSION_BUS_ADDRESS"@,
{
}

} // verus!
