//! Control messages, by which file descriptors travel over a Unix socket.
//!
//! A control message is a header (its length, a level and a type) with data behind it. How it
//! is laid out depends on the machine, so a [`CmsgLayout`] says how.
use vstd::prelude::*;

use crate::rustbus_core::marshal;
use crate::rustbus_core::message_builder::header;
use crate::rustbus_core::wire_format;
use crate::rustbus_core::ByteOrder;
use crate::utils;

verus! {

/// How control messages are laid out on the machine.
#[derive(Clone, Copy, Debug, PartialEq, Eq, Structural)]
pub struct CmsgLayout {
    /// The size of the length in a header, to which everything is aligned.
    pub word: usize,
    /// The byte order of the machine.
    pub order: ByteOrder,
    /// The level of messages of the socket layer.
    pub sol_socket: i32,
    /// The type of messages that carry file descriptors.
    pub scm_rights: i32,
}

impl CmsgLayout {
    pub open spec fn wf(self) -> bool {
        self.word == 4 || self.word == 8
    }

    /// The size of a header.
    pub open spec fn header_size(self) -> int {
        self.word + 8
    }

    /// The number of bytes that a control message with `len` bytes of data takes.
    pub open spec fn space(self, len: int) -> int {
        self.header_size() + utils::align_up(len, self.word as int)
    }

    /// The length of a message, as it stands in its header.
    pub open spec fn length_bytes(self, len: u32) -> Seq<u8> {
        if self.word == 4 {
            utils::u32_bytes(len, self.order)
        } else {
            match self.order {
                ByteOrder::LittleEndian => utils::u32_bytes(len, self.order) + wire_format::zeros(4),
                ByteOrder::BigEndian => wire_format::zeros(4) + utils::u32_bytes(len, self.order),
            }
        }
    }

    /// The length that stands in the header at `at`.
    pub open spec fn length_at(self, buf: Seq<u8>, at: int) -> int {
        if self.word == 4 {
            utils::u32_value(buf.subrange(at, at + 4), self.order)
        } else {
            let first = utils::u32_value(buf.subrange(at, at + 4), self.order);
            let second = utils::u32_value(buf.subrange(at + 4, at + 8), self.order);
            match self.order {
                ByteOrder::LittleEndian => first + 0x1_0000_0000 * second,
                ByteOrder::BigEndian => second + 0x1_0000_0000 * first,
            }
        }
    }
}

/// The unsigned integer with the same bytes.
pub open spec fn unsigned(number: i32) -> u32 {
    if number >= 0 {
        number as u32
    } else {
        (number + 0x1_0000_0000) as u32
    }
}

/// The signed integer with the same bytes.
pub open spec fn signed(number: int) -> i32 {
    if number < 0x8000_0000 {
        number as i32
    } else {
        (number - 0x1_0000_0000) as i32
    }
}

/// The bytes of integers, one behind the other.
pub open spec fn i32s_bytes(numbers: Seq<i32>, order: ByteOrder) -> Seq<u8>
    decreases numbers.len(),
{
    if numbers.len() == 0 {
        seq![]
    } else {
        i32s_bytes(numbers.drop_last(), order) + utils::u32_bytes(unsigned(numbers.last()), order)
    }
}

/// The integers that the bytes hold. Bytes at the end that make no integer do not count.
pub open spec fn i32s_of(data: Seq<u8>, order: ByteOrder) -> Seq<i32>
    decreases data.len(),
{
    if data.len() < 4 {
        seq![]
    } else {
        seq![signed(utils::u32_value(data.take(4), order))] + i32s_of(data.skip(4), order)
    }
}

/// A control message.
#[verifier::ext_equal]
pub struct Entry {
    pub cmsg_level: i32,
    pub cmsg_type: i32,
    pub data: Seq<u8>,
}

/// The bytes of a control message, padding included.
pub open spec fn entry_bytes(entry: Entry, layout: CmsgLayout) -> Seq<u8> {
    let len = entry.data.len() as int;
    layout.length_bytes((layout.header_size() + len) as u32) + utils::u32_bytes(
        unsigned(entry.cmsg_level),
        layout.order,
    ) + utils::u32_bytes(unsigned(entry.cmsg_type), layout.order) + entry.data
        + wire_format::zeros(utils::align_up(len, layout.word as int) - len)
}

/// The control message at `at`, if there is a whole one.
pub open spec fn entry_at(buf: Seq<u8>, at: int, layout: CmsgLayout) -> Option<Entry> {
    let size = layout.header_size();
    if at + size > buf.len() {
        None
    } else {
        let len = layout.length_at(buf, at);
        let ints = at + layout.word;
        if len < size || at + len > buf.len() {
            None
        } else {
            Some(
                Entry {
                    cmsg_level: signed(
                        utils::u32_value(buf.subrange(ints, ints + 4), layout.order),
                    ),
                    cmsg_type: signed(
                        utils::u32_value(buf.subrange(ints + 4, ints + 8), layout.order),
                    ),
                    data: buf.subrange(at + size, at + len),
                },
            )
        }
    }
}

/// The control messages from `at` on.
pub open spec fn entries_from(buf: Seq<u8>, at: int, layout: CmsgLayout) -> Seq<Entry>
    decreases
            if at < buf.len() {
                buf.len() - at
            } else {
                0
            },
{
    match entry_at(buf, at, layout) {
        Some(entry) => if layout.wf() && 0 <= at < buf.len() {
            proof {
                utils::lemma_align_up(entry.data.len() as int, layout.word as int);
            }
            seq![entry] + entries_from(buf, at + layout.space(entry.data.len() as int), layout)
        } else {
            seq![]
        },
        None => seq![],
    }
}

fn to_unsigned(number: i32) -> (value: u32)
    ensures
        value == unsigned(number),
{
    if number >= 0 {
        number as u32
    } else {
        (number as i64 + 0x1_0000_0000) as u32
    }
}

fn to_signed(number: u32) -> (value: i32)
    ensures
        value == signed(number as int),
{
    if number < 0x8000_0000 {
        number as i32
    } else {
        (number as i64 - 0x1_0000_0000) as i32
    }
}

/// Appends zero bytes.
fn push_zeros(bytes: &mut Vec<u8>, count: usize)
    ensures
        final(bytes)@ == old(bytes)@ + wire_format::zeros(count as int),
{
    let mut i: usize = 0;
    assert(bytes@ =~= old(bytes)@ + wire_format::zeros(0));
    while i < count
        invariant
            i <= count,
            bytes@ == old(bytes)@ + wire_format::zeros(i as int),
        decreases count - i,
    {
        bytes.push(0);
        i += 1;
        assert(bytes@ =~= old(bytes)@ + wire_format::zeros(i as int));
    }
}

impl CmsgLayout {
    /// Appends the length of a message.
    fn push_length(&self, bytes: &mut Vec<u8>, len: u32)
        requires
            self.wf(),
        ensures
            final(bytes)@ == old(bytes)@ + self.length_bytes(len),
    {
        if self.word == 4 {
            wire_format::write_u32(len, self.order, bytes);
        } else {
            match self.order {
                ByteOrder::LittleEndian => {
                    wire_format::write_u32(len, self.order, bytes);
                    push_zeros(bytes, 4);
                },
                ByteOrder::BigEndian => {
                    push_zeros(bytes, 4);
                    wire_format::write_u32(len, self.order, bytes);
                },
            }
        }
        assert(bytes@ =~= old(bytes)@ + self.length_bytes(len));
    }

    /// The length of the message whose header is at `at`.
    fn read_length(&self, buf: &[u8], at: usize) -> (len: u64)
        requires
            self.wf(),
            at + self.header_size() <= buf@.len(),
        ensures
            len == self.length_at(buf@, at as int),
    {
        assert(buf@.len() == buf.len());
        let first: u32 = utils::parse_u32(
            vstd::slice::slice_subrange(buf, at, at + 4),
            self.order,
        );
        if self.word == 4 {
            return first as u64;
        }
        let second: u32 = utils::parse_u32(
            vstd::slice::slice_subrange(buf, at + 4, at + 8),
            self.order,
        );
        match self.order {
            ByteOrder::LittleEndian => first as u64 + 0x1_0000_0000 * (second as u64),
            ByteOrder::BigEndian => second as u64 + 0x1_0000_0000 * (first as u64),
        }
    }
}

/// The bytes of file descriptors.
fn fds_to_bytes(fds: &[i32], order: ByteOrder) -> (bytes: Vec<u8>)
    ensures
        bytes@ == i32s_bytes(fds@, order),
{
    let mut bytes: Vec<u8> = Vec::new();
    let mut i: usize = 0;
    assert(fds@.take(0) =~= seq![]);
    while i < fds.len()
        invariant
            i <= fds@.len(),
            bytes@ == i32s_bytes(fds@.take(i as int), order),
        decreases fds@.len() - i,
    {
        wire_format::write_u32(to_unsigned(fds[i]), order, &mut bytes);
        proof {
            let next = fds@.take(i as int + 1);
            assert(next.drop_last() =~= fds@.take(i as int));
        }
        i += 1;
    }
    assert(fds@.take(i as int) =~= fds@);
    bytes
}

/// The bytes of integers take four bytes each.
proof fn lemma_i32s_bytes_len(numbers: Seq<i32>, order: ByteOrder)
    ensures
        i32s_bytes(numbers, order).len() == 4 * numbers.len(),
    decreases numbers.len(),
{
    if numbers.len() > 0 {
        lemma_i32s_bytes_len(numbers.drop_last(), order);
    }
}

/// Whether a control message with `len` bytes of data can be appended to a buffer of `capacity`
/// bytes, of which `length` are used.
pub open spec fn has_room(capacity: int, length: int, len: int, layout: CmsgLayout) -> bool {
    &&& layout.space(len) <= u32::MAX
    &&& length + layout.space(len) <= capacity
}

/// Appends a control message that holds the file descriptors to the first `length` bytes of
/// `buffer`. Returns whether there was room for it.
fn add_to_ancillary_data(
    buffer: &mut Vec<u8>,
    length: &mut usize,
    source: &[i32],
    cmsg_level: i32,
    cmsg_type: i32,
    layout: CmsgLayout,
) -> (added: bool)
    requires
        layout.wf(),
        *old(length) <= old(buffer)@.len(),
    ensures
        added == has_room(
            old(buffer)@.len() as int,
            *old(length) as int,
            4 * source@.len() as int,
            layout,
        ),
        final(buffer)@.len() == old(buffer)@.len(),
        if added {
            let entry = Entry {
                cmsg_level,
                cmsg_type,
                data: i32s_bytes(source@, layout.order),
            };
            &&& *final(length) == *old(length) + layout.space(4 * source@.len() as int)
            &&& final(buffer)@ == old(buffer)@.take(*old(length) as int) + entry_bytes(
                entry,
                layout,
            ) + old(buffer)@.skip(*final(length) as int)
        } else {
            *final(length) == *old(length) && final(buffer)@ == old(buffer)@
        },
{
    proof {
        utils::lemma_align_up(4 * source@.len() as int, layout.word as int);
        lemma_i32s_bytes_len(source@, layout.order);
    }
    if source.len() > 0x3fff_ffff {
        return false;
    }
    let source_len: usize = 4 * source.len();
    let padding: usize = (layout.word - source_len % layout.word) % layout.word;
    assert(utils::align_up(source_len as int, layout.word as int) == source_len + padding);
    let space: u64 = layout.word as u64 + 8 + source_len as u64 + padding as u64;
    if space > u32::MAX as u64 || space > (buffer.len() - *length) as u64 {
        return false;
    }
    let mut entry: Vec<u8> = Vec::new();
    layout.push_length(&mut entry, (layout.word + 8 + source_len) as u32);
    wire_format::write_u32(to_unsigned(cmsg_level), layout.order, &mut entry);
    wire_format::write_u32(to_unsigned(cmsg_type), layout.order, &mut entry);
    let mut data = fds_to_bytes(source, layout.order);
    entry.append(&mut data);
    push_zeros(&mut entry, padding);
    let ghost bytes = entry_bytes(
        Entry { cmsg_level, cmsg_type, data: i32s_bytes(source@, layout.order) },
        layout,
    );
    assert(entry@ =~= bytes);
    assert(entry@.len() == space);
    let start: usize = *length;
    assert(buffer@.len() == buffer.len());
    let ghost before = buffer@;
    let mut i: usize = 0;
    assert(buffer@ =~= before.take(start as int) + bytes.take(0) + before.skip(start as int));
    while i < entry.len()
        invariant
            i <= entry@.len(),
            start + entry@.len() <= before.len() <= usize::MAX,
            entry@ == bytes,
            buffer@ == before.take(start as int) + bytes.take(i as int) + before.skip(start + i),
        decreases entry@.len() - i,
    {
        buffer.set(start + i, entry[i]);
        i += 1;
        assert(buffer@ =~= before.take(start as int) + bytes.take(i as int) + before.skip(
            start + i,
        ));
    }
    assert(bytes.take(i as int) =~= bytes);
    *length = start + entry.len();
    true
}

/// The file descriptors in a control message.
#[derive(Clone, Copy, Debug)]
pub struct ScmRights<'a> {
    data: &'a [u8],
    order: ByteOrder,
}

impl<'a> View for ScmRights<'a> {
    type V = Seq<i32>;

    /// The descriptors that are left.
    closed spec fn view(&self) -> Seq<i32> {
        i32s_of(self.data@, self.order)
    }
}

impl<'a> ScmRights<'a> {
    /// The next file descriptor.
    pub fn next(&mut self) -> (fd: Option<i32>)
        ensures
            match fd {
                Some(fd) => old(self)@.len() > 0 && fd == old(self)@[0] && final(self)@
                    == old(self)@.skip(1),
                None => old(self)@.len() == 0 && final(self)@ == old(self)@,
            },
    {
        if self.data.len() < 4 {
            return None;
        }
        let fd: i32 = to_signed(
            utils::parse_u32(vstd::slice::slice_subrange(self.data, 0, 4), self.order),
        );
        assert(self.data@.subrange(0, 4) =~= self.data@.take(4));
        let rest = vstd::slice::slice_subrange(self.data, 4, self.data.len());
        assert(rest@ =~= self.data@.skip(4));
        assert(self@.skip(1) =~= i32s_of(rest@, self.order));
        self.data = rest;
        Some(fd)
    }
}

/// Why a control message was not understood.
#[derive(Clone, Copy, Debug, PartialEq, Eq, Structural)]
pub enum AncillaryError {
    Unknown { cmsg_level: i32, cmsg_type: i32 },
}

/// A control message that was understood.
#[derive(Clone, Copy, Debug)]
pub enum AncillaryData<'a> {
    ScmRights(ScmRights<'a>),
}

/// Whether `result` is what the control message is taken for.
pub open spec fn understood<'a>(
    entry: Entry,
    layout: CmsgLayout,
    result: Result<AncillaryData<'a>, AncillaryError>,
) -> bool {
    if entry.cmsg_level == layout.sol_socket && entry.cmsg_type == layout.scm_rights {
        result matches Ok(AncillaryData::ScmRights(rights)) && rights@ == i32s_of(
            entry.data,
            layout.order,
        )
    } else {
        result matches Err(AncillaryError::Unknown { cmsg_level, cmsg_type }) && {
            &&& cmsg_level == entry.cmsg_level
            &&& cmsg_type == entry.cmsg_type
        }
    }
}

impl<'a> AncillaryData<'a> {
    /// Tells control messages apart by level and type.
    fn try_from_cmsghdr(
        cmsg_level: i32,
        cmsg_type: i32,
        data: &'a [u8],
        layout: CmsgLayout,
    ) -> (result: Result<AncillaryData<'a>, AncillaryError>)
        ensures
            understood(Entry { cmsg_level, cmsg_type, data: data@ }, layout, result),
    {
        if cmsg_level == layout.sol_socket && cmsg_type == layout.scm_rights {
            Ok(AncillaryData::ScmRights(ScmRights { data, order: layout.order }))
        } else {
            Err(AncillaryError::Unknown { cmsg_level, cmsg_type })
        }
    }
}

/// Goes through control messages.
#[derive(Clone, Copy, Debug)]
pub struct Messages<'a> {
    buffer: &'a [u8],
    at: usize,
    layout: CmsgLayout,
}

impl<'a> Messages<'a> {
    pub closed spec fn wf(self) -> bool {
        self.layout.wf() && self.at <= self.buffer@.len()
    }

    pub closed spec fn layout(self) -> CmsgLayout {
        self.layout
    }

    /// The control messages that are left.
    pub closed spec fn left(self) -> Seq<Entry> {
        entries_from(self.buffer@, self.at as int, self.layout)
    }

    /// The next control message. One that is cut off, or whose length makes no sense, ends the
    /// list.
    pub fn next(&mut self) -> (item: Option<Result<AncillaryData<'a>, AncillaryError>>)
        requires
            old(self).wf(),
        ensures
            final(self).wf(),
            final(self).layout() == old(self).layout(),
            match item {
                Some(result) => {
                    &&& old(self).left().len() > 0
                    &&& understood(old(self).left()[0], old(self).layout(), result)
                    &&& final(self).left() == old(self).left().skip(1)
                },
                None => old(self).left().len() == 0 && final(self).left() == old(self).left(),
            },
    {
        let size: usize = self.layout.word + 8;
        let left: usize = self.buffer.len() - self.at;
        if size > left {
            return None;
        }
        let at: usize = self.at;
        let len: u64 = self.layout.read_length(self.buffer, at);
        if len < size as u64 || len > left as u64 {
            return None;
        }
        let len: usize = len as usize;
        let ints: usize = at + self.layout.word;
        let order = self.layout.order;
        let cmsg_level: i32 = to_signed(
            utils::parse_u32(vstd::slice::slice_subrange(self.buffer, ints, ints + 4), order),
        );
        let cmsg_type: i32 = to_signed(
            utils::parse_u32(vstd::slice::slice_subrange(self.buffer, ints + 4, ints + 8), order),
        );
        let data = vstd::slice::slice_subrange(self.buffer, at + size, at + len);
        let ghost entry = Entry { cmsg_level, cmsg_type, data: data@ };
        assert(entry_at(self.buffer@, at as int, self.layout) == Some(entry));
        let padding: usize = (self.layout.word - data.len() % self.layout.word) % self.layout.word;
        proof {
            utils::lemma_align_up(data@.len() as int, self.layout.word as int);
            assert(self.layout.space(data@.len() as int) == len + padding);
            assert(self.left() =~= seq![entry] + entries_from(
                self.buffer@,
                at + len + padding,
                self.layout,
            ));
        }
        if padding > left - len {
            proof {
                lemma_no_entries(self.buffer@, at + len + padding, self.layout);
                lemma_no_entries(self.buffer@, self.buffer@.len() as int, self.layout);
            }
            self.at = self.buffer.len();
        } else {
            self.at = at + len + padding;
        }
        assert(self.left() =~= old(self).left().skip(1));
        Some(AncillaryData::try_from_cmsghdr(cmsg_level, cmsg_type, data, self.layout))
    }
}

/// There is nothing behind the end.
proof fn lemma_no_entries(buf: Seq<u8>, at: int, layout: CmsgLayout)
    requires
        at >= buf.len(),
        layout.wf(),
    ensures
        entries_from(buf, at, layout) == Seq::<Entry>::empty(),
{
}

/// A buffer for control messages.
#[derive(Debug)]
pub struct SocketAncillary {
    buffer: Vec<u8>,
    length: usize,
    truncated: bool,
    layout: CmsgLayout,
}

impl SocketAncillary {
    /// The layout is one that control messages can have, and the buffer holds the bytes that are
    /// used.
    pub open spec fn wf(self) -> bool {
        self.layout().wf() && 0 <= self.filled() <= self.size()
    }

    /// How many bytes of the buffer are used.
    pub closed spec fn filled(self) -> int {
        self.length as int
    }

    /// The used part of the buffer.
    pub closed spec fn used(self) -> Seq<u8> {
        self.buffer@.take(self.length as int)
    }

    /// The size of the buffer.
    pub closed spec fn size(self) -> int {
        self.buffer@.len() as int
    }

    pub closed spec fn cut_off(self) -> bool {
        self.truncated
    }

    pub closed spec fn layout(self) -> CmsgLayout {
        self.layout
    }

    /// An empty list of control messages in the given buffer.
    pub fn new(buffer: Vec<u8>, layout: CmsgLayout) -> (ancillary: SocketAncillary)
        requires
            layout.wf(),
        ensures
            ancillary.wf(),
            ancillary.used() == Seq::<u8>::empty(),
            ancillary.size() == buffer@.len(),
            !ancillary.cut_off(),
            ancillary.layout() == layout,
    {
        let ancillary = SocketAncillary { buffer, length: 0, truncated: false, layout };
        assert(ancillary.used() =~= Seq::<u8>::empty());
        ancillary
    }

    /// The control messages in `buffer`, of which the first `length` bytes were received.
    /// `truncated` says that some were cut off.
    pub fn received(
        buffer: Vec<u8>,
        length: usize,
        truncated: bool,
        layout: CmsgLayout,
    ) -> (ancillary: SocketAncillary)
        requires
            layout.wf(),
            length <= buffer@.len(),
        ensures
            ancillary.wf(),
            ancillary.used() == buffer@.take(length as int),
            ancillary.size() == buffer@.len(),
            ancillary.cut_off() == truncated,
            ancillary.layout() == layout,
    {
        SocketAncillary { buffer, length, truncated, layout }
    }

    /// The size of the buffer.
    pub fn capacity(&self) -> (capacity: usize)
        ensures
            capacity == self.size(),
    {
        self.buffer.len()
    }

    /// The number of bytes that are used.
    pub fn len(&self) -> (len: usize)
        requires
            self.wf(),
        ensures
            len == self.used().len(),
    {
        self.length
    }

    /// The bytes that are used.
    pub fn as_slice(&self) -> (bytes: &[u8])
        requires
            self.wf(),
        ensures
            bytes@ == self.used(),
    {
        assert(self.buffer@.subrange(0, self.length as int) =~= self.used());
        vstd::slice::slice_subrange(self.buffer.as_slice(), 0, self.length)
    }

    /// Goes through the control messages.
    pub fn messages(&self) -> (messages: Messages<'_>)
        requires
            self.wf(),
        ensures
            messages.wf(),
            messages.layout() == self.layout(),
            messages.left() == entries_from(self.used(), 0, self.layout()),
    {
        Messages { buffer: self.as_slice(), at: 0, layout: self.layout }
    }

    /// Whether control messages were cut off when they were received.
    pub fn truncated(&self) -> (truncated: bool)
        ensures
            truncated == self.cut_off(),
    {
        self.truncated
    }

    /// Appends a control message that holds file descriptors. Returns whether there was room
    /// for it; where there was not, none of them is appended.
    pub fn add_fds(&mut self, fds: &[i32]) -> (added: bool)
        requires
            old(self).wf(),
        ensures
            final(self).wf(),
            final(self).layout() == old(self).layout(),
            final(self).size() == old(self).size(),
            !final(self).cut_off(),
            added == has_room(
                old(self).size(),
                old(self).used().len() as int,
                4 * fds@.len() as int,
                old(self).layout(),
            ),
            final(self).used() == if added {
                old(self).used() + entry_bytes(
                    rights_entry(fds@, old(self).layout()),
                    old(self).layout(),
                )
            } else {
                old(self).used()
            },
    {
        self.truncated = false;
        let added = add_to_ancillary_data(
            &mut self.buffer,
            &mut self.length,
            fds,
            self.layout.sol_socket,
            self.layout.scm_rights,
            self.layout,
        );
        proof {
            if added {
                let entry = rights_entry(fds@, self.layout);
                lemma_entry_len(entry, self.layout);
                lemma_i32s_bytes_len(fds@, self.layout.order);
                assert(self.used() =~= old(self).used() + entry_bytes(entry, self.layout));
            }
        }
        added
    }

    /// Removes all control messages.
    pub fn clear(&mut self)
        ensures
            old(self).wf() ==> final(self).wf(),
            final(self).used() == Seq::<u8>::empty(),
            final(self).size() == old(self).size(),
            !final(self).cut_off(),
            final(self).layout() == old(self).layout(),
    {
        self.length = 0;
        self.truncated = false;
        assert(self.used() =~= Seq::<u8>::empty());
    }
}

/// The control message that holds file descriptors.
pub open spec fn rights_entry(fds: Seq<i32>, layout: CmsgLayout) -> Entry {
    Entry {
        cmsg_level: layout.sol_socket,
        cmsg_type: layout.scm_rights,
        data: i32s_bytes(fds, layout.order),
    }
}

proof fn lemma_entry_len(entry: Entry, layout: CmsgLayout)
    requires
        layout.wf(),
    ensures
        entry_bytes(entry, layout).len() == layout.space(entry.data.len() as int),
{
    utils::lemma_align_up(entry.data.len() as int, layout.word as int);
}

/// The bytes of integers hold these integers.
pub proof fn law_fds_read_back(fds: Seq<i32>, order: ByteOrder)
    ensures
        i32s_of(i32s_bytes(fds, order), order) == fds,
    decreases fds.len(),
{
    if fds.len() > 0 {
        let first = seq![fds[0]];
        let rest = fds.skip(1);
        law_fds_read_back(rest, order);
        lemma_i32s_bytes_concat(first, rest, order);
        assert(first + rest =~= fds);
        assert(first.drop_last() =~= seq![]);
        let bytes = i32s_bytes(fds, order);
        let number = unsigned(fds[0]);
        utils::lemma_u32_round_trip(number, order);
        assert(i32s_bytes(seq![], order) =~= seq![]);
        assert(i32s_bytes(first, order) =~= utils::u32_bytes(number, order));
        assert(bytes.take(4) =~= utils::u32_bytes(number, order));
        assert(bytes.skip(4) =~= i32s_bytes(rest, order));
        assert(i32s_of(bytes, order) =~= fds);
    }
}

proof fn lemma_i32s_bytes_concat(a: Seq<i32>, b: Seq<i32>, order: ByteOrder)
    ensures
        i32s_bytes(a + b, order) == i32s_bytes(a, order) + i32s_bytes(b, order),
    decreases b.len(),
{
    if b.len() == 0 {
        assert(a + b =~= a);
        assert(i32s_bytes(a, order) + i32s_bytes(b, order) =~= i32s_bytes(a, order));
    } else {
        assert((a + b).drop_last() =~= a + b.drop_last());
        lemma_i32s_bytes_concat(a, b.drop_last(), order);
        assert(i32s_bytes(a + b, order) =~= i32s_bytes(a, order) + i32s_bytes(b, order));
    }
}

/// The bytes of control messages, one behind the other.
pub open spec fn list_bytes(entries: Seq<Entry>, layout: CmsgLayout) -> Seq<u8>
    decreases entries.len(),
{
    if entries.len() == 0 {
        seq![]
    } else {
        entry_bytes(entries[0], layout) + list_bytes(entries.skip(1), layout)
    }
}

/// A part of the bytes in the middle.
proof fn lemma_middle(before: Seq<u8>, bytes: Seq<u8>, after: Seq<u8>, from: int, to: int)
    requires
        0 <= from <= to <= bytes.len(),
    ensures
        (before + bytes + after).subrange(before.len() + from, before.len() + to)
            == bytes.subrange(from, to),
{
    assert((before + bytes + after).subrange(before.len() + from, before.len() + to)
        =~= bytes.subrange(from, to));
}

/// The length in the header of a control message reads as what was written.
proof fn lemma_length_at(before: Seq<u8>, rest: Seq<u8>, len: u32, layout: CmsgLayout)
    requires
        layout.wf(),
    ensures
        layout.length_at(before + layout.length_bytes(len) + rest, before.len() as int) == len,
{
    let bytes = layout.length_bytes(len);
    let buf = before + bytes + rest;
    let at = before.len() as int;
    utils::lemma_u32_round_trip(len, layout.order);
    utils::lemma_u32_round_trip(0, layout.order);
    lemma_middle(before, bytes, rest, 0, 4);
    if layout.word == 4 {
        assert(bytes.subrange(0, 4) =~= utils::u32_bytes(len, layout.order));
    } else {
        lemma_middle(before, bytes, rest, 4, 8);
        match layout.order {
            ByteOrder::LittleEndian => {
                assert(bytes.subrange(0, 4) =~= utils::u32_bytes(len, layout.order));
                assert(bytes.subrange(4, 8) =~= wire_format::zeros(4));
            },
            ByteOrder::BigEndian => {
                assert(bytes.subrange(0, 4) =~= wire_format::zeros(4));
                assert(bytes.subrange(4, 8) =~= utils::u32_bytes(len, layout.order));
            },
        }
    }
}

/// The parts of a control message.
proof fn lemma_entry_parts(entry: Entry, layout: CmsgLayout)
    requires
        layout.wf(),
    ensures
        entry_bytes(entry, layout).subrange(layout.word as int, layout.word + 4)
            == utils::u32_bytes(unsigned(entry.cmsg_level), layout.order),
        entry_bytes(entry, layout).subrange(layout.word + 4, layout.word + 8) == utils::u32_bytes(
            unsigned(entry.cmsg_type),
            layout.order,
        ),
        entry_bytes(entry, layout).subrange(
            layout.header_size(),
            layout.header_size() + entry.data.len(),
        ) == entry.data,
{
    let bytes = entry_bytes(entry, layout);
    let word = layout.word as int;
    utils::lemma_align_up(entry.data.len() as int, word);
    assert(bytes.subrange(word, word + 4) =~= utils::u32_bytes(
        unsigned(entry.cmsg_level),
        layout.order,
    ));
    assert(bytes.subrange(word + 4, word + 8) =~= utils::u32_bytes(
        unsigned(entry.cmsg_type),
        layout.order,
    ));
    assert(bytes.subrange(word + 8, word + 8 + entry.data.len()) =~= entry.data);
}

/// The bytes before a control message do not change how it is read.
proof fn lemma_entry_at(before: Seq<u8>, entry: Entry, after: Seq<u8>, layout: CmsgLayout)
    requires
        layout.wf(),
        layout.space(entry.data.len() as int) <= u32::MAX,
    ensures
        entry_at(before + entry_bytes(entry, layout) + after, before.len() as int, layout) == Some(
            entry,
        ),
{
    let bytes = entry_bytes(entry, layout);
    let buf = before + bytes + after;
    let at = before.len() as int;
    let size = layout.header_size();
    let len = (size + entry.data.len()) as u32;
    utils::lemma_align_up(entry.data.len() as int, layout.word as int);
    utils::lemma_u32_round_trip(unsigned(entry.cmsg_level), layout.order);
    utils::lemma_u32_round_trip(unsigned(entry.cmsg_type), layout.order);
    lemma_entry_len(entry, layout);
    lemma_entry_parts(entry, layout);
    lemma_middle(before, bytes, after, layout.word as int, layout.word + 4);
    lemma_middle(before, bytes, after, layout.word + 4, layout.word + 8);
    lemma_middle(before, bytes, after, size, size + entry.data.len());
    let head = layout.length_bytes(len);
    let rest = bytes.skip(head.len() as int) + after;
    assert(buf =~= before + head + rest);
    lemma_length_at(before, rest, len, layout);
}

/// The control messages that were written one behind the other are those that are read.
pub proof fn law_entries_read_back(before: Seq<u8>, entries: Seq<Entry>, layout: CmsgLayout)
    requires
        layout.wf(),
        forall|i: int|
            0 <= i < entries.len() ==> layout.space(
                (#[trigger] entries[i]).data.len() as int,
            ) <= u32::MAX,
    ensures
        entries_from(before + list_bytes(entries, layout), before.len() as int, layout) == entries,
    decreases entries.len(),
{
    let buf = before + list_bytes(entries, layout);
    if entries.len() == 0 {
        assert(buf =~= before);
        lemma_no_entries(buf, before.len() as int, layout);
        assert(entries =~= Seq::<Entry>::empty());
    } else {
        let entry = entries[0];
        let rest = entries.skip(1);
        let after = list_bytes(rest, layout);
        assert(buf =~= before + entry_bytes(entry, layout) + after);
        lemma_entry_at(before, entry, after, layout);
        lemma_entry_len(entry, layout);
        utils::lemma_align_up(entry.data.len() as int, layout.word as int);
        let next = before + entry_bytes(entry, layout);
        assert forall|i: int| 0 <= i < rest.len() implies layout.space(
            (#[trigger] rest[i]).data.len() as int,
        ) <= u32::MAX by {
            assert(rest[i] == entries[i + 1]);
        }
        law_entries_read_back(next, rest, layout);
        assert(buf =~= next + after);
        assert(entries =~= seq![entry] + rest);
    }
}

/// File descriptors that were put into an empty buffer are those that come out of it.
pub proof fn law_rights_round_trip<'a>(
    fds: Seq<i32>,
    layout: CmsgLayout,
    result: Result<AncillaryData<'a>, AncillaryError>,
)
    requires
        layout.wf(),
        layout.space(4 * fds.len() as int) <= u32::MAX,
    ensures
        ({
            let entry = rights_entry(fds, layout);
            &&& entries_from(entry_bytes(entry, layout), 0, layout) == seq![entry]
            &&& understood(entry, layout, result) ==> {
                result matches Ok(AncillaryData::ScmRights(rights)) && rights@ == fds
            }
        }),
{
    let entry = rights_entry(fds, layout);
    lemma_i32s_bytes_len(fds, layout.order);
    law_fds_read_back(fds, layout.order);
    let one = seq![entry];
    assert(one.skip(1) =~= seq![]);
    assert(list_bytes(one, layout) =~= entry_bytes(entry, layout)) by {
        assert(list_bytes(seq![], layout) =~= seq![]);
    }
    law_entries_read_back(seq![], one, layout);
    assert(Seq::<u8>::empty() + list_bytes(one, layout) =~= entry_bytes(entry, layout));
}

/// A control message with file descriptors starts with its length, without the padding behind
/// it, in one word, the level and the type. The descriptors follow, in four bytes each, and the
/// whole takes a multiple of a word. (Levels, types and descriptors are never negative.)
pub proof fn law_control_message_layout(fds: Seq<i32>, layout: CmsgLayout)
    requires
        layout.wf(),
        layout.word + 8 + 4 * fds.len() <= u32::MAX,
        layout.sol_socket >= 0,
        layout.scm_rights >= 0,
        forall|i: int| 0 <= i < fds.len() ==> #[trigger] fds[i] >= 0,
    ensures
        ({
            let bytes = entry_bytes(rights_entry(fds, layout), layout);
            let length = layout.word + 8 + 4 * fds.len();
            let word = layout.word as int;
            &&& length <= bytes.len() < length + word
            &&& bytes.len() % layout.word as nat == 0
            &&& word == 4 ==> header::number_stands_at(bytes, 0, length as int, layout.order)
            &&& word == 8 && layout.order is LittleEndian ==> header::number_stands_at(
                bytes,
                0,
                length as int,
                layout.order,
            ) && header::number_stands_at(bytes, 4, 0, layout.order)
            &&& word == 8 && layout.order is BigEndian ==> header::number_stands_at(
                bytes,
                0,
                0,
                layout.order,
            ) && header::number_stands_at(bytes, 4, length as int, layout.order)
            &&& header::number_stands_at(bytes, word, layout.sol_socket as int, layout.order)
            &&& header::number_stands_at(bytes, word + 4, layout.scm_rights as int, layout.order)
            &&& forall|i: int|
                0 <= i < fds.len() ==> header::number_stands_at(
                    bytes,
                    word + 8 + 4 * i,
                    #[trigger] fds[i] as int,
                    layout.order,
                )
        }),
{
    let entry = rights_entry(fds, layout);
    let bytes = entry_bytes(entry, layout);
    let word = layout.word as int;
    let order = layout.order;
    let length = (word + 8 + 4 * fds.len()) as u32;
    lemma_i32s_bytes_len(fds, order);
    lemma_entry_len(entry, layout);
    lemma_entry_parts(entry, layout);
    utils::lemma_align_up(entry.data.len() as int, word);
    assert((word + 8) % word == 0);
    assert(bytes.len() % layout.word as nat == 0) by {
        let data = utils::align_up(entry.data.len() as int, word);
        if word == 8 {
            assert(data % 8 == 0);
        } else {
            assert(data % 4 == 0);
        }
    }
    let head = layout.length_bytes(length);
    assert(bytes.subrange(0, word) =~= head);
    utils::lemma_u32_round_trip(length, order);
    utils::lemma_u32_round_trip(0, order);
    utils::lemma_u32_round_trip(layout.sol_socket as u32, order);
    utils::lemma_u32_round_trip(layout.scm_rights as u32, order);
    assert forall|i: int| 0 <= i < word implies bytes[i] == #[trigger] head[i] by {
        assert(bytes.subrange(0, word)[i] == bytes[i]);
    }
    lemma_number_in(bytes, word, layout.sol_socket as u32, order);
    lemma_number_in(bytes, word + 4, layout.scm_rights as u32, order);
    assert forall|i: int| 0 <= i < fds.len() implies header::number_stands_at(
        bytes,
        word + 8 + 4 * i,
        #[trigger] fds[i] as int,
        order,
    ) by {
        lemma_i32_in(fds, i, order);
        let at = word + 8 + 4 * i;
        assert(bytes.subrange(at, at + 4) =~= bytes.subrange(word + 8, word + 8 + entry.data.len()).subrange(
            4 * i,
            4 * i + 4,
        ));
        lemma_number_in(bytes, at, fds[i] as u32, order);
    }
}

proof fn lemma_number_in(bytes: Seq<u8>, at: int, number: u32, order: ByteOrder)
    requires
        0 <= at,
        at + 4 <= bytes.len(),
        bytes.subrange(at, at + 4) == utils::u32_bytes(number, order),
    ensures
        header::number_stands_at(bytes, at, number as int, order),
{
    let part = bytes.subrange(at, at + 4);
    utils::lemma_u32_round_trip(number, order);
    assert(part[0] == bytes[at]);
    assert(part[1] == bytes[at + 1]);
    assert(part[2] == bytes[at + 2]);
    assert(part[3] == bytes[at + 3]);
}

proof fn lemma_i32_in(numbers: Seq<i32>, i: int, order: ByteOrder)
    requires
        0 <= i < numbers.len(),
    ensures
        4 * i + 4 <= i32s_bytes(numbers, order).len(),
        i32s_bytes(numbers, order).subrange(4 * i, 4 * i + 4) == utils::u32_bytes(
            unsigned(numbers[i]),
            order,
        ),
    decreases numbers.len(),
{
    lemma_i32s_bytes_len(numbers, order);
    lemma_i32s_bytes_len(numbers.drop_last(), order);
    let all = i32s_bytes(numbers, order);
    if i == numbers.len() - 1 {
        assert(all.subrange(4 * i, 4 * i + 4) =~= utils::u32_bytes(unsigned(numbers[i]), order));
    } else {
        lemma_i32_in(numbers.drop_last(), i, order);
        assert(all.subrange(4 * i, 4 * i + 4) =~= i32s_bytes(numbers.drop_last(), order).subrange(
            4 * i,
            4 * i + 4,
        ));
    }
}

/// File descriptors are appended if their control message, padding included, fits behind what
/// is there, and only then.
pub proof fn law_room_is_what_the_bytes_take(
    capacity: int,
    used: int,
    fds: Seq<i32>,
    layout: CmsgLayout,
)
    requires
        layout.wf(),
        0 <= used,
        capacity <= u32::MAX,
    ensures
        has_room(capacity, used, 4 * fds.len() as int, layout) <==> used + entry_bytes(
            rights_entry(fds, layout),
            layout,
        ).len() <= capacity,
{
    lemma_i32s_bytes_len(fds, layout.order);
    lemma_entry_len(rights_entry(fds, layout), layout);
}

/// A control message of another level or type is not taken for file descriptors.
pub proof fn law_other_messages_are_unknown<'a>(
    entry: Entry,
    layout: CmsgLayout,
    result: Result<AncillaryData<'a>, AncillaryError>,
)
    requires
        understood(entry, layout, result),
    ensures
        result is Ok <==> entry.cmsg_level == layout.sol_socket && entry.cmsg_type
            == layout.scm_rights,
        result matches Err(AncillaryError::Unknown { cmsg_level, cmsg_type }) ==> cmsg_level
            == entry.cmsg_level && cmsg_type == entry.cmsg_type,
{
}

/// A control message that is read stands in the buffer: its length, level and type, and behind
/// them its data, up to the length. One that reaches beyond the buffer, or whose length is less
/// than that of a header, is none.
pub proof fn law_entry_is_what_stands_there(buf: Seq<u8>, at: int, layout: CmsgLayout)
    requires
        layout.wf(),
        0 <= at,
        at + layout.word + 8 <= buf.len(),
    ensures
        ({
            let word = layout.word as int;
            let length = layout.length_at(buf, at);
            match entry_at(buf, at, layout) {
                Some(entry) => {
                    &&& word + 8 <= length <= buf.len() - at
                    &&& entry.data == buf.subrange(at + word + 8, at + length)
                    &&& entry.cmsg_level >= 0 ==> header::number_stands_at(
                        buf,
                        at + word,
                        entry.cmsg_level as int,
                        layout.order,
                    )
                    &&& entry.cmsg_type >= 0 ==> header::number_stands_at(
                        buf,
                        at + word + 4,
                        entry.cmsg_type as int,
                        layout.order,
                    )
                },
                None => length < word + 8 || length > buf.len() - at,
            }
        }),
        layout.word == 4 ==> header::number_stands_at(
            buf,
            at,
            layout.length_at(buf, at),
            layout.order,
        ),
{
    let word = layout.word as int;
    marshal::lemma_value_stands(buf, at, layout.order);
    marshal::lemma_value_stands(buf, at + word, layout.order);
    marshal::lemma_value_stands(buf, at + word + 4, layout.order);
}

/// Bytes behind the last whole descriptor do not count.
pub proof fn law_fds_without_what_is_cut_off(fds: Seq<i32>, order: ByteOrder, extra: Seq<u8>)
    requires
        extra.len() < 4,
    ensures
        i32s_of(i32s_bytes(fds, order) + extra, order) == fds,
    decreases fds.len(),
{
    if fds.len() == 0 {
        assert(i32s_bytes(fds, order) + extra =~= extra);
        assert(fds =~= seq![]);
    } else {
        let first = seq![fds[0]];
        let rest = fds.skip(1);
        law_fds_without_what_is_cut_off(rest, order, extra);
        lemma_i32s_bytes_concat(first, rest, order);
        assert(first + rest =~= fds);
        assert(first.drop_last() =~= seq![]);
        let bytes = i32s_bytes(fds, order) + extra;
        let number = unsigned(fds[0]);
        utils::lemma_u32_round_trip(number, order);
        assert(i32s_bytes(seq![], order) =~= seq![]);
        assert(i32s_bytes(first, order) =~= utils::u32_bytes(number, order));
        assert(bytes.take(4) =~= utils::u32_bytes(number, order));
        assert(bytes.skip(4) =~= i32s_bytes(rest, order) + extra);
        assert(i32s_of(bytes, order) =~= fds);
    }
}

} // verus!
