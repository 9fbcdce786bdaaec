//! Taking messages out of a stream of bytes.
//!
//! The state holds the bytes that belong to the message that comes next. It asks for more
//! bytes until that message is complete. How the bytes arrived, all at once or piece by piece,
//! makes no difference.
use vstd::prelude::*;

use rustbus::wire::UnixFd;

use crate::rustbus_core::marshal::{Unmarshal, UnmarshalContext};
use crate::rustbus_core::message_builder;
use crate::rustbus_core::message_builder::body;
use crate::rustbus_core::message_builder::body::BodyView;
use crate::rustbus_core::message_builder::header;
use crate::rustbus_core::message_builder::header::HeaderView;
use crate::rustbus_core::message_builder::{
    DynamicHeader, MarshalledMessage, MarshalledMessageBody, MessageView,
};
use crate::rustbus_core::round_trip;
use crate::rustbus_core::wire_format;
use crate::rustbus_core::wire_format::{Header, HEADER_LEN};
use crate::rustbus_core::{ByteOrder, Serial};
use crate::utils;

verus! {

/// The most file descriptors that may come with one message.
pub const DBUS_MAX_FD_MESSAGE: usize = 32;

/// Why the peer broke the protocol. The connection has to be shut down.
#[derive(Clone, Copy, Debug, PartialEq, Eq, Structural)]
pub enum RecvError {
    BadHeader,
    ZeroSerial,
    TooManyFds,
    WrongFdCount,
    BadBody,
    /// A header field that messages of its kind have is missing, or it has no kind.
    MissingField,
}

/// How much of the next message has been read.
pub enum InState {
    /// The start of the fixed part of its header.
    Header(Vec<u8>),
    /// The fixed part of its header and the start of the rest of its header.
    DynHdr(Header, Vec<u8>),
    /// Its whole header and the start of its body.
    Finishing(Header, DynamicHeader, Vec<u8>),
}

/// What stands at the start of a stream of bytes.
#[verifier::ext_equal]
pub enum Frame {
    /// A message, of which bytes are missing.
    Incomplete,
    /// No message.
    Bad(RecvError),
    /// A message that ends at `end`.
    Complete { hdr: Header, dynhdr: HeaderView, body: Seq<u8>, end: int },
}

/// How long the header is whose first bytes are `bytes`.
pub open spec fn header_len(bytes: Seq<u8>, order: ByteOrder) -> int {
    utils::align_up(16 + utils::u32_value(bytes.subrange(12, 16), order), 8)
}

/// The dynamic header with the serial number of the message.
pub open spec fn with_serial(dynhdr: HeaderView, serial: u32) -> HeaderView {
    HeaderView { serial: Some(serial), ..dynhdr }
}

/// How many file descriptors come with a message that has this header.
pub open spec fn announced_fds(dynhdr: HeaderView) -> int {
    match dynhdr.num_fds {
        Some(count) => count as int,
        None => 0,
    }
}

/// What stands at the start of `bytes`. Without `with_fd` a message may not come with file
/// descriptors.
#[verifier::opaque]
pub open spec fn frame(bytes: Seq<u8>, with_fd: bool) -> Frame {
    if bytes.len() < HEADER_LEN {
        Frame::Incomplete
    } else {
        match wire_format::header_at_start(bytes) {
            Err(_) => Frame::Bad(RecvError::BadHeader),
            Ok(hdr) => if bytes.len() < 16 {
                Frame::Incomplete
            } else {
                frame_behind_header(bytes, hdr, with_fd)
            },
        }
    }
}

/// What stands at the start of `bytes`, the fixed part of whose header is `hdr`.
pub open spec fn frame_behind_header(bytes: Seq<u8>, hdr: Header, with_fd: bool) -> Frame {
    let total = header_len(bytes, hdr.byteorder);
    if total > usize::MAX {
        Frame::Bad(RecvError::BadHeader)
    } else if bytes.len() < total {
        Frame::Incomplete
    } else {
        match header::dynamic_header_at(bytes.take(total), 12, hdr.byteorder) {
            Err(_) => Frame::Bad(RecvError::BadHeader),
            Ok((_, dynhdr)) => if hdr.serial == 0 {
                Frame::Bad(RecvError::ZeroSerial)
            } else if announced_fds(dynhdr) > 0 && !with_fd {
                Frame::Bad(RecvError::BadHeader)
            } else if bytes.len() < total + hdr.body_len {
                Frame::Incomplete
            } else {
                Frame::Complete {
                    hdr,
                    dynhdr: with_serial(dynhdr, hdr.serial),
                    body: bytes.subrange(total, total + hdr.body_len),
                    end: total + hdr.body_len,
                }
            },
        }
    }
}

/// The header of a message that has been read completely.
#[verifier::opaque]
pub open spec fn header_done(
    head: Seq<u8>,
    hdr: Header,
    dynhdr: HeaderView,
    with_fd: bool,
) -> bool {
    &&& head.len() >= 16
    &&& wire_format::header_at_start(head) == Ok::<Header, wire_format::UnmarshalError>(hdr)
    &&& header_len(head, hdr.byteorder) == head.len()
    &&& hdr.serial != 0
    &&& exists|end: int, plain: HeaderView|
        {
            &&& #[trigger] header::dynamic_header_at(head, 12, hdr.byteorder) == Ok::<
                (int, HeaderView),
                wire_format::UnmarshalError,
            >((end, plain))
            &&& dynhdr == with_serial(plain, hdr.serial)
            &&& (announced_fds(plain) == 0 || with_fd)
        }
}

impl InState {
    /// The state is one that reading can reach. `head` holds the header, once it is complete.
    pub open spec fn wf(self, head: Seq<u8>, with_fd: bool) -> bool {
        match self {
            InState::Header(b) => head.len() == 0 && b@.len() <= 16,
            InState::DynHdr(hdr, b) => {
                &&& head.len() == 0
                &&& b@.len() >= HEADER_LEN
                &&& wire_format::header_at_start(b@) == Ok::<Header, wire_format::UnmarshalError>(
                    hdr,
                )
                &&& b@.len() >= 16 ==> b@.len() <= header_len(b@, hdr.byteorder)
            },
            InState::Finishing(hdr, dynhdr, b) => {
                &&& header_done(head, hdr, dynhdr@, with_fd)
                &&& b@.len() <= hdr.body_len
            },
        }
    }

    /// The bytes of the message that were read.
    pub open spec fn bytes(self, head: Seq<u8>) -> Seq<u8> {
        match self {
            InState::Header(b) => b@,
            InState::DynHdr(_, b) => b@,
            InState::Finishing(_, _, b) => head + b@,
        }
    }

    /// How many bytes are to be read next.
    pub open spec fn needed(self) -> int {
        match self {
            InState::Header(b) => 16 - b@.len(),
            InState::DynHdr(hdr, b) => if b@.len() < 16 {
                16 - b@.len()
            } else {
                header_len(b@, hdr.byteorder) - b@.len()
            },
            InState::Finishing(hdr, _, b) => hdr.body_len - b@.len(),
        }
    }

    fn into_buf(self) -> (buf: Vec<u8>)
        ensures
            buf@.len() == 0,
    {
        let mut buf = match self {
            InState::Header(b) => b,
            InState::DynHdr(_, b) => b,
            InState::Finishing(_, _, b) => b,
        };
        buf.clear();
        buf
    }

    /// Starts over with the next message. The allocation is kept.
    fn into_hdr(self) -> (state: InState)
        ensures
            state matches InState::Header(b) && b@.len() == 0,
    {
        InState::Header(self.into_buf())
    }

    /// The state has used all bytes that there were, and waits for more.
    pub open spec fn waiting(self) -> bool {
        &&& self.needed() > 0
        &&& self matches InState::DynHdr(hdr, b) ==> (b@.len() >= 16 ==> header_len(
            b@,
            hdr.byteorder,
        ) <= usize::MAX)
    }

    /// How many bytes are to be read next.
    fn bytes_needed_for_next(&self) -> (needed: usize)
        requires
            self.waiting(),
        ensures
            needed == self.needed(),
    {
        match self {
            InState::Header(b) => HEADER_LEN + 4 - b.len(),
            InState::DynHdr(hdr, b) => {
                if b.len() < 16 {
                    16 - b.len()
                } else {
                    let array_len: usize = utils::parse_u32(
                        vstd::slice::slice_subrange(b.as_slice(), 12, 16),
                        hdr.byteorder,
                    ) as usize;
                    proof {
                        utils::lemma_align_up(16 + array_len, 8);
                    }
                    utils::align_num(HEADER_LEN + 4 + array_len, 8) - b.len()
                }
            },
            InState::Finishing(hdr, _, b) => hdr.body_len as usize - b.len(),
        }
    }
}

/// Appends a slice.
fn append(vec: &mut Vec<u8>, bytes: &[u8])
    ensures
        final(vec)@ == old(vec)@ + bytes@,
{
    vec.extend_from_slice(bytes);
    assert(vec@ =~= old(vec)@ + bytes@);
}

/// Moves bytes from `buf`, which has been used up to `loc`, to `vec`, until it holds `target`
/// bytes. Returns whether there were enough.
fn extend_max(vec: &mut Vec<u8>, buf: &[u8], loc: &mut usize, target: usize) -> (enough: bool)
    requires
        *old(loc) <= buf@.len(),
    ensures
        *old(loc) <= *final(loc) <= buf@.len(),
        final(vec)@ == old(vec)@ + buf@.subrange(*old(loc) as int, *final(loc) as int),
        enough == (final(vec)@.len() >= target),
        old(vec)@.len() >= target ==> *final(loc) == *old(loc),
        old(vec)@.len() < target && enough ==> final(vec)@.len() == target,
        !enough ==> *final(loc) == buf@.len(),
{
    if vec.len() >= target {
        assert(vec@ =~= old(vec)@ + buf@.subrange(*loc as int, *loc as int));
        return true;
    }
    let left: usize = buf.len() - *loc;
    let needed: usize = target - vec.len();
    if needed > left {
        append(vec, vstd::slice::slice_subrange(buf, *loc, buf.len()));
        *loc = buf.len();
        false
    } else {
        append(vec, vstd::slice::slice_subrange(buf, *loc, *loc + needed));
        *loc = *loc + needed;
        true
    }
}

/// The fixed part of a header, and its length, do not depend on what follows.
proof fn lemma_header_prefix(a: Seq<u8>, b: Seq<u8>)
    requires
        a.len() >= HEADER_LEN,
        a.is_prefix_of(b),
    ensures
        wire_format::header_at_start(b) == wire_format::header_at_start(a),
        a.len() >= 16 ==> forall|order: ByteOrder| #[trigger]
            header_len(b, order) == header_len(a, order),
{
    assert(a =~= b.subrange(0, a.len() as int));
    assert(b.subrange(4, 8) =~= a.subrange(4, 8));
    assert(b.subrange(8, 12) =~= a.subrange(8, 12));
    if a.len() >= 16 {
        assert(b.subrange(12, 16) =~= a.subrange(12, 16));
    }
}

proof fn lemma_prefix_concat(a: Seq<u8>, b: Seq<u8>)
    ensures
        a.is_prefix_of(a + b),
{
    assert(a =~= (a + b).subrange(0, a.len() as int));
}

/// The header of which `bytes` are the first ones is no shorter than its fixed part.
proof fn lemma_header_len(bytes: Seq<u8>, order: ByteOrder)
    requires
        bytes.len() >= 16,
    ensures
        header_len(bytes, order) >= 16,
{
    utils::lemma_align_up(16 + utils::u32_value(bytes.subrange(12, 16), order), 8);
}

/// What stands behind a complete header.
proof fn lemma_frame_behind_done(
    head: Seq<u8>,
    hdr: Header,
    dynhdr: HeaderView,
    with_fd: bool,
    tail: Seq<u8>,
)
    requires
        header_done(head, hdr, dynhdr, with_fd),
        head.len() <= usize::MAX,
    ensures
        frame(head + tail, with_fd) == if tail.len() < hdr.body_len {
            Frame::Incomplete
        } else {
            Frame::Complete {
                hdr,
                dynhdr,
                body: tail.take(hdr.body_len as int),
                end: head.len() + hdr.body_len,
            }
        },
{
    reveal(frame);
    reveal(header_done);
    let all = head + tail;
    lemma_prefix_concat(head, tail);
    lemma_header_prefix(head, all);
    assert(header_len(all, hdr.byteorder) == header_len(head, hdr.byteorder));
    assert(all.take(head.len() as int) =~= head);
    if tail.len() >= hdr.body_len {
        assert(all.subrange(head.len() as int, head.len() + hdr.body_len) =~= tail.take(
            hdr.body_len as int,
        ));
    }
}

/// What lies behind a complete message is the end of the stream.
proof fn lemma_rest_is_suffix(bytes: Seq<u8>, with_fd: bool)
    ensures
        frame(bytes, with_fd) matches Frame::Complete { end, .. } ==> bytes.skip(end).is_suffix_of(
            bytes,
        ),
{
    reveal(frame);
    if bytes.len() >= 16 {
        lemma_header_len(bytes, ByteOrder::LittleEndian);
        lemma_header_len(bytes, ByteOrder::BigEndian);
    }
    if let Frame::Complete { end, .. } = frame(bytes, with_fd) {
        assert(bytes.skip(end) =~= bytes.subrange(end, bytes.len() as int));
    }
}

proof fn lemma_suffix_concat(a: Seq<u8>, b: Seq<u8>)
    ensures
        b.is_suffix_of(a + b),
{
    assert(b =~= (a + b).subrange(a.len() as int, (a + b).len() as int));
}

/// The state of the receiving direction of a stream.
pub struct RecvState {
    in_state: InState,
    in_fds: Vec<UnixFd>,
    remaining: Vec<u8>,
    rem_loc: usize,
    with_fd: bool,
    /// The header of the message of which the body is read.
    head: Ghost<Seq<u8>>,
}

impl RecvState {
    /// The bytes that were received and that belong to no message that was handed out.
    pub closed spec fn pending(self) -> Seq<u8> {
        self.in_state.bytes(self.head@) + self.unused()
    }

    /// The bytes that were received and not looked at yet.
    pub closed spec fn unused(self) -> Seq<u8> {
        self.remaining@.skip(self.rem_loc as int)
    }

    /// The file descriptors that were received and that belong to no message that was handed
    /// out.
    pub closed spec fn fds(self) -> Seq<UnixFd> {
        self.in_fds@
    }

    /// Whether messages may come with file descriptors.
    pub closed spec fn with_fd(self) -> bool {
        self.with_fd
    }

    /// How many bytes the state asks for.
    pub closed spec fn wanted(self) -> int {
        self.in_state.needed()
    }

    /// The state starts over: the next message starts with the bytes that were not looked at,
    /// which lie at the end of `bytes`.
    pub open spec fn started_over(self, bytes: Seq<u8>) -> bool {
        &&& self.pending() == self.unused()
        &&& self.wanted() == 16
        &&& self.unused().is_suffix_of(bytes)
        &&& self.fds() == Seq::<UnixFd>::empty()
    }

    /// All bytes were used, and more are needed.
    pub closed spec fn waiting(self) -> bool {
        self.in_state.waiting() && self.rem_loc == self.remaining@.len()
    }

    pub closed spec fn wf(self) -> bool {
        &&& self.in_state.wf(self.head@, self.with_fd)
        &&& self.head@.len() <= usize::MAX
        &&& self.rem_loc <= self.remaining@.len()
    }

    /// The state at the start of a connection.
    pub fn new(with_fd: bool) -> (state: RecvState)
        ensures
            state.wf(),
            state.waiting(),
            state.pending() == Seq::<u8>::empty(),
            state.fds() == Seq::<UnixFd>::empty(),
            state.with_fd() == with_fd,
    {
        let state = RecvState {
            in_state: InState::Header(Vec::new()),
            in_fds: Vec::new(),
            remaining: Vec::new(),
            rem_loc: 0,
            with_fd,
            head: Ghost(Seq::empty()),
        };
        assert(state.pending() =~= Seq::<u8>::empty());
        state
    }

    /// Moves unused bytes to `buf` until it holds `target` bytes. Returns whether there were
    /// enough.
    fn fill(&mut self, buf: &mut Vec<u8>, target: usize) -> (enough: bool)
        requires
            old(self).rem_loc <= old(self).remaining@.len(),
        ensures
            final(self).rem_loc <= final(self).remaining@.len(),
            final(self).with_fd == old(self).with_fd,
            final(self).in_fds == old(self).in_fds,
            final(self).in_state == old(self).in_state,
            final(self).head == old(self).head,
            final(buf)@ + final(self).unused() == old(buf)@ + old(self).unused(),
            old(buf)@.is_prefix_of(final(buf)@),
            enough == (final(buf)@.len() >= target),
            final(buf)@.len() <= old(buf)@.len() || final(buf)@.len() <= target,
            !enough ==> final(self).unused() == Seq::<u8>::empty() && final(self).rem_loc
                == final(self).remaining@.len(),
    {
        let enough = extend_max(buf, self.remaining.as_slice(), &mut self.rem_loc, target);
        proof {
            let before = old(self).rem_loc as int;
            let after = self.rem_loc as int;
            let all = self.remaining@;
            assert(all.skip(before) =~= all.subrange(before, after) + all.skip(after));
            assert(buf@ + self.unused() =~= old(buf)@ + old(self).unused());
            lemma_prefix_concat(old(buf)@, all.subrange(before, after));
            assert(!enough ==> self.unused() =~= Seq::<u8>::empty());
        }
        enough
    }

    /// Reads the fixed part of the header. Returns whether there were enough bytes.
    fn read_header(&mut self) -> (result: Result<bool, RecvError>)
        requires
            old(self).wf(),
            old(self).in_state is Header,
        ensures
            final(self).wf(),
            final(self).with_fd == old(self).with_fd,
            final(self).in_fds == old(self).in_fds,
            match result {
                Ok(enough) => {
                    &&& final(self).pending() == old(self).pending()
                    &&& if enough {
                        final(self).in_state is DynHdr
                    } else {
                        &&& final(self).waiting()
                        &&& frame(old(self).pending(), old(self).with_fd) is Incomplete
                    }
                },
                Err(error) => {
                    &&& frame(old(self).pending(), old(self).with_fd) == Frame::Bad(error)
                    &&& final(self).unused().is_suffix_of(old(self).pending())
                },
            },
    {
        reveal(frame);
        let mut state = InState::Header(Vec::new());
        std::mem::swap(&mut state, &mut self.in_state);
        let mut buf = match state {
            InState::Header(buf) => buf,
            other => other.into_buf(),
        };
        if !self.fill(&mut buf, HEADER_LEN) {
            assert(buf@ + self.unused() =~= buf@);
            self.in_state = InState::Header(buf);
            return Ok(false);
        }
        proof {
            lemma_prefix_concat(buf@, self.unused());
            lemma_header_prefix(buf@, old(self).pending());
            if buf@.len() >= 16 {
                lemma_header_len(buf@, ByteOrder::LittleEndian);
                lemma_header_len(buf@, ByteOrder::BigEndian);
            }
        }
        match wire_format::unmarshal_header(buf.as_slice()) {
            Ok(hdr) => {
                self.in_state = InState::DynHdr(hdr, buf);
                Ok(true)
            },
            Err(_) => {
                proof {
                    lemma_suffix_concat(buf@, self.unused());
                }
                self.in_state = InState::Header(buf);
                Err(RecvError::BadHeader)
            },
        }
    }

    /// Reads the rest of the header. Returns whether there were enough bytes.
    fn read_dynamic_header(&mut self) -> (result: Result<bool, RecvError>)
        requires
            old(self).wf(),
            old(self).in_state is DynHdr,
        ensures
            final(self).wf(),
            final(self).with_fd == old(self).with_fd,
            final(self).in_fds == old(self).in_fds,
            match result {
                Ok(enough) => {
                    &&& final(self).pending() == old(self).pending()
                    &&& if enough {
                        final(self).in_state is Finishing
                    } else {
                        &&& final(self).waiting()
                        &&& frame(old(self).pending(), old(self).with_fd) is Incomplete
                    }
                },
                Err(error) => {
                    &&& frame(old(self).pending(), old(self).with_fd) == Frame::Bad(error)
                    &&& final(self).unused().is_suffix_of(old(self).pending())
                },
            },
    {
        reveal(frame);
        let ghost pending = self.pending();
        let mut state = InState::Header(Vec::new());
        std::mem::swap(&mut state, &mut self.in_state);
        let (hdr, mut buf) = match state {
            InState::DynHdr(hdr, buf) => (hdr, buf),
            _ => {
                return Ok(false);
            },
        };
        let ghost buf0 = buf@;
        let enough = self.fill(&mut buf, HEADER_LEN + 4);
        let ghost buf1 = buf@;
        proof {
            lemma_header_prefix(buf0, buf1);
            lemma_prefix_concat(buf1, self.unused());
            lemma_header_prefix(buf1, pending);
        }
        if !enough {
            assert(buf@ + self.unused() =~= buf@);
            self.in_state = InState::DynHdr(hdr, buf);
            return Ok(false);
        }
        let array_len: usize = utils::parse_u32(
            vstd::slice::slice_subrange(buf.as_slice(), 12, 16),
            hdr.byteorder,
        ) as usize;
        let total: usize = match Self::padded_len(array_len) {
            Some(total) => total,
            None => {
                assert(header_len(pending, hdr.byteorder) > usize::MAX);
                proof {
                    lemma_suffix_concat(buf@, self.unused());
                }
                self.in_state = InState::Header(Vec::new());
                return Err(RecvError::BadHeader);
            },
        };
        assert(total == header_len(buf1, hdr.byteorder));
        proof {
            lemma_header_len(buf1, hdr.byteorder);
        }
        let enough = self.fill(&mut buf, total);
        proof {
            lemma_header_prefix(buf1, buf@);
        }
        if !enough {
            assert(buf@ + self.unused() =~= buf@);
            self.in_state = InState::DynHdr(hdr, buf);
            return Ok(false);
        }
        assert(buf@.len() == total);
        assert(pending.take(total as int) =~= buf@);
        match parse_dynamic_header(&hdr, buf.as_slice(), self.with_fd) {
            Ok(dynhdr) => {
                let ghost head = buf@;
                buf.clear();
                if hdr.body_len as u64 <= isize::MAX as u64 {
                    buf.reserve(hdr.body_len as usize);
                }
                self.head = Ghost(head);
                self.in_state = InState::Finishing(hdr, dynhdr, buf);
                assert(head + buf@ =~= head);
                Ok(true)
            },
            Err(error) => {
                proof {
                    lemma_suffix_concat(buf@, self.unused());
                }
                self.in_state = InState::Header(Vec::new());
                Err(error)
            },
        }
    }

    /// Reads the body. Returns the message if there were enough bytes.
    fn read_body(&mut self) -> (result: Option<(Header, DynamicHeader, Vec<u8>)>)
        requires
            old(self).wf(),
            old(self).in_state is Finishing,
        ensures
            final(self).wf(),
            final(self).with_fd == old(self).with_fd,
            final(self).in_fds == old(self).in_fds,
            match frame(old(self).pending(), old(self).with_fd) {
                Frame::Incomplete => {
                    &&& result is None
                    &&& final(self).waiting()
                    &&& final(self).pending() == old(self).pending()
                },
                Frame::Bad(_) => false,
                Frame::Complete { hdr, dynhdr, body, end } => {
                    &&& result matches Some((h, d, b)) && h == hdr && d@ == dynhdr && b@ == body
                    &&& final(self).pending() == old(self).pending().skip(end)
                    &&& final(self).pending() == final(self).unused()
                    &&& final(self).wanted() == 16
                },
            },
    {
        let ghost pending = self.pending();
        let ghost head = self.head@;
        let mut state = InState::Header(Vec::new());
        std::mem::swap(&mut state, &mut self.in_state);
        let (hdr, dynhdr, mut buf) = match state {
            InState::Finishing(hdr, dynhdr, buf) => (hdr, dynhdr, buf),
            _ => {
                return None;
            },
        };
        let ghost tail = buf@ + self.unused();
        proof {
            lemma_frame_behind_done(head, hdr, dynhdr@, self.with_fd, tail);
            assert(pending =~= head + tail);
        }
        if !self.fill(&mut buf, hdr.body_len as usize) {
            self.in_state = InState::Finishing(hdr, dynhdr, buf);
            assert(self.pending() =~= pending);
            return None;
        }
        self.in_state = InState::Header(Vec::new());
        self.head = Ghost(Seq::empty());
        proof {
            assert(self.pending() =~= self.unused());
            assert(tail.take(hdr.body_len as int) =~= buf@);
            assert(self.pending() =~= pending.skip(head.len() + hdr.body_len));
        }
        Some((hdr, dynhdr, buf))
    }

    /// The length of a header whose fields take `array_len` bytes, where it can be counted.
    fn padded_len(array_len: usize) -> (total: Option<usize>)
        ensures
            match total {
                Some(total) => total == utils::align_up(16 + array_len, 8),
                None => utils::align_up(16 + array_len, 8) > usize::MAX,
            },
    {
        proof {
            utils::lemma_align_up(16 + array_len, 8);
        }
        let end: usize = array_len.checked_add(HEADER_LEN + 4)?;
        end.checked_add((8 - end % 8) % 8)
    }

    /// Takes the next message out of the bytes that were received, if it is complete. Where
    /// there is none, the state starts over, and the connection has to be shut down.
    fn try_get_msg(&mut self) -> (result: Result<
        Option<(Header, DynamicHeader, Vec<u8>)>,
        RecvError,
    >)
        requires
            old(self).wf(),
        ensures
            final(self).wf(),
            final(self).with_fd() == old(self).with_fd(),
            match frame(old(self).pending(), old(self).with_fd()) {
                Frame::Incomplete => {
                    &&& result matches Ok(None)
                    &&& final(self).waiting()
                    &&& final(self).pending() == old(self).pending()
                    &&& final(self).fds() == old(self).fds()
                },
                Frame::Bad(error) => {
                    &&& result matches Err(e) && e == error
                    &&& final(self).started_over(old(self).pending())
                },
                Frame::Complete { hdr, dynhdr, body, end } => {
                    &&& result matches Ok(Some((h, d, b))) && h == hdr && d@ == dynhdr && b@ == body
                    &&& final(self).pending() == old(self).pending().skip(end)
                    &&& final(self).pending() == final(self).unused()
                    &&& final(self).wanted() == 16
                    &&& final(self).fds() == old(self).fds()
                },
            },
    {
        let result = self.advance();
        if result.is_err() {
            self.in_fds.clear();
            let mut state = InState::Header(Vec::new());
            std::mem::swap(&mut state, &mut self.in_state);
            self.in_state = state.into_hdr();
            self.head = Ghost(Seq::empty());
            assert(self.pending() =~= self.unused());
        }
        result
    }

    fn advance(&mut self) -> (result: Result<Option<(Header, DynamicHeader, Vec<u8>)>, RecvError>)
        requires
            old(self).wf(),
        ensures
            final(self).rem_loc <= final(self).remaining@.len(),
            final(self).with_fd == old(self).with_fd,
            final(self).in_fds == old(self).in_fds,
            match frame(old(self).pending(), old(self).with_fd()) {
                Frame::Incomplete => {
                    &&& result matches Ok(None)
                    &&& final(self).wf()
                    &&& final(self).waiting()
                    &&& final(self).pending() == old(self).pending()
                },
                Frame::Bad(error) => {
                    &&& result matches Err(e) && e == error
                    &&& final(self).unused().is_suffix_of(old(self).pending())
                },
                Frame::Complete { hdr, dynhdr, body, end } => {
                    &&& result matches Ok(Some((h, d, b))) && h == hdr && d@ == dynhdr && b@ == body
                    &&& final(self).wf()
                    &&& final(self).pending() == old(self).pending().skip(end)
                    &&& final(self).pending() == final(self).unused()
                    &&& final(self).wanted() == 16
                },
            },
    {
        let is_header = match &self.in_state {
            InState::Header(_) => true,
            _ => false,
        };
        if is_header {
            match self.read_header() {
                Ok(true) => {},
                Ok(false) => {
                    return Ok(None);
                },
                Err(error) => {
                    return Err(error);
                },
            }
        }
        let is_dynhdr = match &self.in_state {
            InState::DynHdr(_, _) => true,
            _ => false,
        };
        if is_dynhdr {
            match self.read_dynamic_header() {
                Ok(true) => {},
                Ok(false) => {
                    return Ok(None);
                },
                Err(error) => {
                    return Err(error);
                },
            }
        }
        Ok(self.read_body())
    }
}

/// What a message holds that was received in these parts.
pub open spec fn received_message(
    hdr: Header,
    dynhdr: HeaderView,
    body: Seq<u8>,
    fds: Seq<UnixFd>,
) -> MessageView {
    MessageView {
        typ: hdr.typ,
        flags: hdr.flags,
        dynheader: dynhdr,
        body: BodyView {
            buf: body,
            sig: match dynhdr.signature {
                Some(sig) => sig,
                None => seq![],
            },
            fds,
            byteorder: hdr.byteorder,
        },
    }
}

/// Puts a message together.
fn mm_from_raw(hdr: Header, dynhdr: DynamicHeader, body: Vec<u8>, fds: Vec<UnixFd>) -> (msg:
    MarshalledMessage)
    ensures
        msg@ == received_message(hdr, dynhdr@, body@, fds@),
        msg.dynheader == dynhdr,
        msg.typ == hdr.typ,
        msg.flags == hdr.flags,
{
    let sig = match &dynhdr.signature {
        Some(sig) => sig.clone(),
        None => String::new(),
    };
    let msg = MarshalledMessage {
        typ: hdr.typ,
        flags: hdr.flags,
        body: MarshalledMessageBody::from_parts(body, fds, sig, hdr.byteorder),
        dynheader: dynhdr,
    };
    assert(msg@ =~= received_message(hdr, dynhdr@, body@, fds@));
    msg
}

impl RecvState {
    /// The next message, if it was received completely. An error means that the peer broke the
    /// protocol: the connection has to be shut down.
    ///
    /// Where the message is not complete, `bytes_needed_for_next` says how much to read for
    /// `received`.
    pub fn get_next_message(&mut self) -> (result: Result<Option<MarshalledMessage>, RecvError>)
        requires
            old(self).wf(),
        ensures
            final(self).wf(),
            final(self).with_fd() == old(self).with_fd(),
            match frame(old(self).pending(), old(self).with_fd()) {
                Frame::Incomplete => {
                    &&& result matches Ok(None)
                    &&& final(self).waiting()
                    &&& final(self).pending() == old(self).pending()
                    &&& final(self).fds() == old(self).fds()
                },
                Frame::Bad(error) => {
                    &&& result matches Err(e) && e == error
                    &&& final(self).started_over(old(self).pending())
                },
                Frame::Complete { hdr, dynhdr, body, end } => {
                    let msg = received_message(hdr, dynhdr, body, old(self).fds());
                    &&& final(self).pending() == old(self).pending().skip(end)
                    &&& final(self).started_over(old(self).pending())
                    &&& if old(self).fds().len() != announced_fds(dynhdr) {
                        result matches Err(RecvError::WrongFdCount)
                    } else if !body::valid_body(msg.body) {
                        result matches Err(RecvError::BadBody)
                    } else {
                        result matches Ok(Some(received)) && received@ == msg
                    }
                    &&& result matches Ok(Some(received)) ==> {
                        &&& received@.typ == hdr.typ
                        &&& received@.flags == hdr.flags
                        &&& received@.dynheader == dynhdr
                        &&& received@.body.buf == body
                        &&& received@.body.byteorder == hdr.byteorder
                        &&& received@.body.fds == old(self).fds()
                        &&& dynhdr.signature matches Some(sig) ==> received@.body.sig == sig
                        &&& dynhdr.signature is None ==> received@.body.sig.len() == 0
                    }
                },
            },
    {
        let (hdr, dynhdr, body) = match self.try_get_msg() {
            Ok(Some(parts)) => parts,
            Ok(None) => {
                return Ok(None);
            },
            Err(error) => {
                return Err(error);
            },
        };
        proof {
            lemma_rest_is_suffix(old(self).pending(), old(self).with_fd());
        }
        let mut fds: Vec<UnixFd> = Vec::new();
        std::mem::swap(&mut fds, &mut self.in_fds);
        let announced: usize = match dynhdr.num_fds {
            Some(count) => count as usize,
            None => 0,
        };
        if fds.len() != announced {
            return Err(RecvError::WrongFdCount);
        }
        let msg = mm_from_raw(hdr, dynhdr, body, fds);
        match msg.body.validate() {
            Ok(()) => Ok(Some(msg)),
            Err(_) => Err(RecvError::BadBody),
        }
    }

    /// How many bytes to read next. Where messages may come with file descriptors no more than
    /// that may be read at a time, because it could not be told which message a descriptor
    /// belongs to.
    pub fn bytes_needed_for_next(&self) -> (needed: usize)
        requires
            self.wf(),
            self.waiting(),
        ensures
            needed == self.wanted(),
            needed > 0,
    {
        self.in_state.bytes_needed_for_next()
    }

    /// Whether as many bytes lie ready as are to be read next.
    pub fn pos_next_msg(&self) -> (possible: bool)
        requires
            self.wf(),
            self.waiting(),
        ensures
            possible == (self.stored() >= self.wanted()),
    {
        self.remaining.len() >= self.in_state.bytes_needed_for_next()
    }

    /// How many bytes the buffer for bytes behind a message holds, used ones included.
    pub closed spec fn stored(self) -> int {
        self.remaining@.len() as int
    }

    /// Takes bytes and file descriptors that were read from the stream.
    pub fn received(&mut self, data: &[u8], fds: Vec<UnixFd>) -> (result: Result<(), RecvError>)
        requires
            old(self).wf(),
            old(self).waiting(),
            old(self).with_fd() ==> data@.len() <= old(self).wanted(),
        ensures
            final(self).wf(),
            final(self).with_fd() == old(self).with_fd(),
            if old(self).with_fd() && old(self).fds().len() + fds@.len() > DBUS_MAX_FD_MESSAGE {
                &&& result matches Err(RecvError::TooManyFds)
                &&& final(self).pending() == Seq::<u8>::empty()
                &&& final(self).wanted() == 16
                &&& final(self).fds() == Seq::<UnixFd>::empty()
            } else {
                &&& result is Ok
                &&& final(self).pending() == old(self).pending() + data@
                &&& final(self).fds() == if old(self).with_fd() {
                    old(self).fds() + fds@
                } else {
                    old(self).fds()
                }
            },
    {
        let ghost pending = self.pending();
        let needed: usize = self.in_state.bytes_needed_for_next();
        let split: usize = if needed < data.len() {
            needed
        } else {
            data.len()
        };
        self.remaining.clear();
        self.rem_loc = 0;
        let direct = vstd::slice::slice_subrange(data, 0, split);
        self.read_directly(direct);
        append(&mut self.remaining, vstd::slice::slice_subrange(data, split, data.len()));
        proof {
            assert(self.remaining@.skip(0) =~= data@.skip(split as int));
            assert(direct@ + data@.skip(split as int) =~= data@);
            assert(self.pending() =~= pending + data@);
        }
        if self.with_fd {
            let mut fds = fds;
            self.in_fds.append(&mut fds);
            if self.in_fds.len() > DBUS_MAX_FD_MESSAGE {
                let mut state = InState::Header(Vec::new());
                std::mem::swap(&mut state, &mut self.in_state);
                self.in_state = state.into_hdr();
                self.head = Ghost(Seq::empty());
                self.in_fds.clear();
                assert(self.pending() =~= Seq::<u8>::empty());
                return Err(RecvError::TooManyFds);
            }
        }
        Ok(())
    }

    /// Appends bytes to those of the message that is being read.
    fn read_directly(&mut self, data: &[u8])
        requires
            old(self).wf(),
            old(self).in_state.waiting(),
            data@.len() <= old(self).in_state.needed(),
        ensures
            final(self).wf(),
            final(self).with_fd == old(self).with_fd,
            final(self).in_fds == old(self).in_fds,
            final(self).remaining == old(self).remaining,
            final(self).rem_loc == old(self).rem_loc,
            final(self).head == old(self).head,
            final(self).in_state.bytes(final(self).head@) == old(self).in_state.bytes(
                old(self).head@,
            ) + data@,
    {
        let mut state = InState::Header(Vec::new());
        std::mem::swap(&mut state, &mut self.in_state);
        match state {
            InState::Header(buf) => {
                let mut buf = buf;
                append(&mut buf, data);
                self.in_state = InState::Header(buf);
            },
            InState::DynHdr(hdr, buf) => {
                let mut buf = buf;
                let ghost before = buf@;
                append(&mut buf, data);
                proof {
                    lemma_prefix_concat(before, data@);
                    lemma_header_prefix(before, buf@);
                    if buf@.len() >= 16 {
                        lemma_header_len(buf@, hdr.byteorder);
                    }
                }
                self.in_state = InState::DynHdr(hdr, buf);
            },
            InState::Finishing(hdr, dynhdr, buf) => {
                let mut buf = buf;
                let ghost before = buf@;
                append(&mut buf, data);
                assert(self.head@ + buf@ =~= (self.head@ + before) + data@);
                self.in_state = InState::Finishing(hdr, dynhdr, buf);
            },
        }
    }
}

/// What stands at the start of a stream does not change when more bytes arrive. So it makes no
/// difference in what pieces they arrive.
pub proof fn law_frame_stable(bytes: Seq<u8>, more: Seq<u8>, with_fd: bool)
    requires
        !(frame(bytes, with_fd) is Incomplete),
    ensures
        frame(bytes + more, with_fd) == frame(bytes, with_fd),
{
    reveal(frame);
    let all = bytes + more;
    lemma_prefix_concat(bytes, more);
    lemma_header_prefix(bytes, all);
    if let Ok(hdr) = wire_format::header_at_start(bytes) {
        let total = header_len(bytes, hdr.byteorder);
        assert(header_len(all, hdr.byteorder) == total);
        if total <= bytes.len() {
            lemma_header_len(bytes, hdr.byteorder);
            assert(all.take(total) =~= bytes.take(total));
            if total + hdr.body_len <= bytes.len() {
                assert(all.subrange(total, total + hdr.body_len) =~= bytes.subrange(
                    total,
                    total + hdr.body_len,
                ));
            }
        }
    }
}

/// The bytes of a message on the stream: its header and its body.
pub open spec fn message_bytes(msg: MessageView, serial: u32) -> Seq<u8> {
    message_builder::message_header(msg, serial) + msg.body.buf
}

/// A message that is put on the stream is taken off it at the other end, with the same kind,
/// flags, byte order, header fields and body, whatever follows it.
pub proof fn law_message_round_trip(msg: MessageView, serial: u32, with_fd: bool, rest: Seq<u8>)
    requires
        message_builder::writable_header(msg),
        round_trip::sendable(msg, serial),
        !(msg.typ is Invalid),
        msg.dynheader.response_serial != Some(0u32),
        serial != 0,
        msg.body.fds.len() == 0 || with_fd,
    ensures
        frame(message_bytes(msg, serial) + rest, with_fd) == (Frame::Complete {
            hdr: Header {
                byteorder: msg.body.byteorder,
                typ: msg.typ,
                flags: msg.flags,
                version: 1,
                body_len: msg.body.buf.len() as u32,
                serial,
            },
            dynhdr: with_serial(round_trip::received_header(msg), serial),
            body: msg.body.buf,
            end: message_bytes(msg, serial).len() as int,
        }),
{
    let head = message_builder::message_header(msg, serial);
    let hdr = Header {
        byteorder: msg.body.byteorder,
        typ: msg.typ,
        flags: msg.flags,
        version: 1,
        body_len: msg.body.buf.len() as u32,
        serial,
    };
    let dynhdr = with_serial(round_trip::received_header(msg), serial);
    round_trip::law_header_round_trip(msg, serial);
    round_trip::lemma_header_length(msg, serial);
    assert(header_done(head, hdr, dynhdr, with_fd)) by {
        reveal(header_done);
    }
    lemma_frame_behind_done(head, hdr, dynhdr, with_fd, msg.body.buf + rest);
    assert(message_bytes(msg, serial) + rest =~= head + (msg.body.buf + rest));
    assert((msg.body.buf + rest).take(msg.body.buf.len() as int) =~= msg.body.buf);
}

/// Reads the dynamic header out of a complete header.
fn parse_dynamic_header(hdr: &Header, buf: &[u8], with_fd: bool) -> (result: Result<
    DynamicHeader,
    RecvError,
>)
    requires
        buf@.len() >= 16,
        wire_format::header_at_start(buf@) == Ok::<Header, wire_format::UnmarshalError>(*hdr),
        header_len(buf@, hdr.byteorder) == buf@.len(),
    ensures
        match header::dynamic_header_at(buf@, 12, hdr.byteorder) {
            Err(_) => result matches Err(RecvError::BadHeader),
            Ok((_, plain)) => if hdr.serial == 0 {
                result matches Err(RecvError::ZeroSerial)
            } else if announced_fds(plain) > 0 && !with_fd {
                result matches Err(RecvError::BadHeader)
            } else {
                result matches Ok(dynhdr) && {
                    &&& dynhdr@ == with_serial(plain, hdr.serial)
                    &&& header_done(buf@, *hdr, dynhdr@, with_fd)
                }
            },
        },
{
    reveal(header_done);
    let no_fds: Vec<UnixFd> = Vec::new();
    let mut ctx = UnmarshalContext {
        byteorder: hdr.byteorder,
        offset: HEADER_LEN,
        buf,
        fds: no_fds.as_slice(),
    };
    let mut dynhdr = match <DynamicHeader as Unmarshal>::unmarshal(&mut ctx) {
        Ok((_, dynhdr)) => dynhdr,
        Err(_) => {
            return Err(RecvError::BadHeader);
        },
    };
    let ghost plain = dynhdr@;
    dynhdr.serial = Serial::new(hdr.serial);
    if dynhdr.serial.is_none() {
        return Err(RecvError::ZeroSerial);
    }
    assert(dynhdr@ =~= with_serial(plain, hdr.serial));
    let count: u32 = match dynhdr.num_fds {
        Some(count) => count,
        None => 0,
    };
    if count > 0 && !with_fd {
        return Err(RecvError::BadHeader);
    }
    Ok(dynhdr)
}

/// What a message is that was taken off a stream in these parts, with the descriptors that came
/// with it: the message `msg` as it was sent with the given serial number.
pub open spec fn is_as_sent(
    got: MessageView,
    msg: MessageView,
    serial: u32,
    fds: Seq<UnixFd>,
) -> bool {
    &&& got.typ == msg.typ
    &&& got.flags == msg.flags
    &&& got.dynheader.serial == Some(serial)
    &&& got.dynheader.object == msg.dynheader.object
    &&& got.dynheader.interface == msg.dynheader.interface
    &&& got.dynheader.member == msg.dynheader.member
    &&& got.dynheader.error_name == msg.dynheader.error_name
    &&& got.dynheader.response_serial == msg.dynheader.response_serial
    &&& got.dynheader.destination == msg.dynheader.destination
    &&& got.dynheader.sender == msg.dynheader.sender
    &&& got.body.buf == msg.body.buf
    &&& got.body.byteorder == msg.body.byteorder
    &&& got.body.fds == fds
    &&& msg.body.buf.len() > 0 ==> got.body.sig == msg.body.sig && got.dynheader.signature == Some(
        msg.body.sig,
    )
    &&& msg.body.buf.len() == 0 ==> got.body.sig.len() == 0 && got.dynheader.signature is None
    &&& msg.body.fds.len() > 0 ==> got.dynheader.num_fds == Some(msg.body.fds.len() as u32)
    &&& msg.body.fds.len() == 0 ==> got.dynheader.num_fds is None
}

/// The message that is handed out has exactly the header that was sent: its kind, flags, serial
/// and every header field are those of the message that was written, and so is its body. The
/// next message starts right behind it.
pub proof fn law_message_is_received_as_sent(
    msg: MessageView,
    serial: u32,
    with_fd: bool,
    fds: Seq<UnixFd>,
    rest: Seq<u8>,
)
    requires
        message_builder::valid_fields(msg.dynheader),
        round_trip::sendable(msg, serial),
        !(msg.typ is Invalid),
        msg.dynheader.response_serial != Some(0u32),
        serial != 0,
        msg.body.fds.len() == 0 || with_fd,
        fds.len() == msg.body.fds.len(),
    ensures
        message_builder::writable_header(msg),
        frame(message_bytes(msg, serial) + rest, with_fd) matches Frame::Complete {
            hdr,
            dynhdr,
            body,
            end,
        } && {
            &&& is_as_sent(received_message(hdr, dynhdr, body, fds), msg, serial, fds)
            &&& announced_fds(dynhdr) == fds.len()
            &&& (message_bytes(msg, serial) + rest).skip(end) == rest
        },
{
    message_builder::law_valid_fields_are_written(msg);
    law_message_round_trip(msg, serial, with_fd, rest);
    assert((message_bytes(msg, serial) + rest).skip(message_bytes(msg, serial).len() as int)
        =~= rest);
}

/// Two messages that were sent one behind the other are taken off the stream in that order.
pub proof fn law_messages_keep_their_order(
    first: MessageView,
    first_serial: u32,
    second: MessageView,
    second_serial: u32,
    with_fd: bool,
    rest: Seq<u8>,
)
    requires
        message_builder::valid_fields(first.dynheader),
        round_trip::sendable(first, first_serial),
        !(first.typ is Invalid),
        first.dynheader.response_serial != Some(0u32),
        first_serial != 0,
        first.body.fds.len() == 0 || with_fd,
        message_builder::valid_fields(second.dynheader),
        round_trip::sendable(second, second_serial),
        !(second.typ is Invalid),
        second.dynheader.response_serial != Some(0u32),
        second_serial != 0,
        second.body.fds.len() == 0 || with_fd,
    ensures
        ({
            let stream = message_bytes(first, first_serial) + message_bytes(second, second_serial)
                + rest;
            frame(stream, with_fd) matches Frame::Complete { hdr: hdr1, dynhdr: dyn1, body: b1, end }
                && is_as_sent(
                received_message(hdr1, dyn1, b1, first.body.fds),
                first,
                first_serial,
                first.body.fds,
            ) && (frame(stream.skip(end), with_fd) matches Frame::Complete {
                hdr: hdr2,
                dynhdr: dyn2,
                body: b2,
                end: end2,
            } && is_as_sent(
                received_message(hdr2, dyn2, b2, second.body.fds),
                second,
                second_serial,
                second.body.fds,
            ) && stream.skip(end).skip(end2) == rest)
        }),
{
    let behind = message_bytes(second, second_serial) + rest;
    assert(message_bytes(first, first_serial) + message_bytes(second, second_serial) + rest
        =~= message_bytes(first, first_serial) + behind);
    law_message_is_received_as_sent(first, first_serial, with_fd, first.body.fds, behind);
    law_message_is_received_as_sent(second, second_serial, with_fd, second.body.fds, rest);
}

/// A stream is refused if it does not start like a message: the first byte names no byte order,
/// the second one no kind of message, or, once the header is complete, the serial is zero or
/// descriptors are announced on a connection that carries none.
pub proof fn law_bad_starts_are_refused(bytes: Seq<u8>, with_fd: bool)
    requires
        bytes.len() >= 12,
    ensures
        !(bytes[0] as int == 'l' as int || bytes[0] as int == 'B' as int) || !(1 <= bytes[1] <= 4)
            ==> frame(bytes, with_fd) == Frame::Bad(RecvError::BadHeader),
        frame(bytes, with_fd) matches Frame::Complete { hdr, dynhdr, body, end } ==> {
            &&& bytes[0] as int == 'l' as int <==> hdr.byteorder is LittleEndian
            &&& bytes[0] as int == 'B' as int <==> hdr.byteorder is BigEndian
            &&& bytes[1] == 1 <==> hdr.typ is Call
            &&& bytes[1] == 2 <==> hdr.typ is Reply
            &&& bytes[1] == 3 <==> hdr.typ is Error
            &&& bytes[1] == 4 <==> hdr.typ is Signal
            &&& hdr.flags == bytes[2]
            &&& hdr.body_len == utils::u32_value(bytes.subrange(4, 8), hdr.byteorder)
            &&& hdr.serial == utils::u32_value(bytes.subrange(8, 12), hdr.byteorder)
            &&& hdr.serial != 0
            &&& dynhdr.serial == Some(hdr.serial)
            &&& dynhdr.num_fds matches Some(count) ==> count == 0 || with_fd
            &&& end <= bytes.len()
            &&& body.len() == hdr.body_len
            &&& body == bytes.subrange(end - hdr.body_len, end)
            &&& (end - hdr.body_len) % 8 == 0
            &&& 16 + utils::u32_value(bytes.subrange(12, 16), hdr.byteorder) <= end - hdr.body_len
                < 24 + utils::u32_value(bytes.subrange(12, 16), hdr.byteorder)
        },
{
    reveal(frame);
    if bytes.len() >= 16 {
        let order = if bytes[0] == 0x6c {
            ByteOrder::LittleEndian
        } else {
            ByteOrder::BigEndian
        };
        utils::lemma_align_up(16 + utils::u32_value(bytes.subrange(12, 16), order), 8);
    }
}

/// What the state asks for never reaches beyond the message that is being read: a message that
/// becomes complete by it ends where the bytes end. So file descriptors that come with the bytes
/// belong to that message.
pub proof fn law_reads_stay_within_the_message(state: RecvState, data: Seq<u8>)
    requires
        state.wf(),
        state.waiting(),
        data.len() <= state.wanted(),
    ensures
        frame(state.pending() + data, state.with_fd()) matches Frame::Complete { end, .. } ==> end
            == (state.pending() + data).len(),
{
    let with_fd = state.with_fd();
    let bytes = state.in_state.bytes(state.head@);
    let all = state.pending() + data;
    assert(state.unused() =~= seq![]);
    assert(all =~= bytes + data);
    match state.in_state {
        InState::Header(b) => {
            reveal(frame);
            if all.len() >= 16 {
                lemma_header_len(all, ByteOrder::LittleEndian);
                lemma_header_len(all, ByteOrder::BigEndian);
            }
        },
        InState::DynHdr(hdr, b) => {
            reveal(frame);
            lemma_prefix_concat(b@, data);
            lemma_header_prefix(b@, all);
            if all.len() >= 16 {
                lemma_header_len(all, hdr.byteorder);
            }
            if b@.len() >= 16 {
                assert(header_len(all, hdr.byteorder) == header_len(b@, hdr.byteorder));
            }
        },
        InState::Finishing(hdr, dynhdr, b) => {
            let tail = b@ + data;
            assert(all =~= state.head@ + tail);
            lemma_frame_behind_done(state.head@, hdr, dynhdr@, with_fd, tail);
        },
    }
}

/// A state that starts over asks for the part of a header that says how long the rest is.
pub proof fn law_first_read_is_the_start_of_a_header(state: RecvState, before: Seq<u8>)
    requires
        state.started_over(before),
    ensures
        state.wanted() == 16,
        state.fds().len() == 0,
        state.pending().len() <= before.len(),
        state.pending() == before.skip(before.len() - state.pending().len()),
{
    let rest = state.pending();
    assert(rest =~= before.subrange(before.len() - rest.len(), before.len() as int));
    assert(before.subrange(before.len() - rest.len(), before.len() as int) =~= before.skip(
        before.len() - rest.len(),
    ));
}

/// As long as a byte of a message is missing, more bytes are waited for.
pub proof fn law_partial_message_waits(msg: MessageView, serial: u32, with_fd: bool, count: int)
    requires
        message_builder::valid_fields(msg.dynheader),
        round_trip::sendable(msg, serial),
        !(msg.typ is Invalid),
        msg.dynheader.response_serial != Some(0u32),
        serial != 0,
        msg.body.fds.len() == 0 || with_fd,
        0 <= count < message_bytes(msg, serial).len(),
    ensures
        frame(message_bytes(msg, serial).take(count), with_fd) is Incomplete,
{
    let all = message_bytes(msg, serial);
    let part = all.take(count);
    message_builder::law_valid_fields_are_written(msg);
    law_message_round_trip(msg, serial, with_fd, seq![]);
    assert(all + seq![] =~= all);
    assert(all =~= part + all.skip(count));
    if !(frame(part, with_fd) is Incomplete) {
        law_frame_stable(part, all.skip(count), with_fd);
        if part.len() >= 12 {
            law_bad_starts_are_refused(part, with_fd);
        } else {
            reveal(frame);
        }
    }
}

/// A message with the serial zero is refused for that, and one that announces file descriptors on
/// a connection that carries none is refused as a bad header.
pub proof fn law_refused_messages(msg: MessageView, serial: u32, with_fd: bool, rest: Seq<u8>)
    requires
        message_builder::valid_fields(msg.dynheader),
        round_trip::sendable(msg, serial),
        !(msg.typ is Invalid),
        msg.dynheader.response_serial != Some(0u32),
    ensures
        serial == 0 ==> frame(message_bytes(msg, serial) + rest, with_fd) == Frame::Bad(
            RecvError::ZeroSerial,
        ),
        serial != 0 && msg.body.fds.len() > 0 && !with_fd ==> frame(
            message_bytes(msg, serial) + rest,
            with_fd,
        ) == Frame::Bad(RecvError::BadHeader),
{
    let head = message_builder::message_header(msg, serial);
    let all = message_bytes(msg, serial) + rest;
    message_builder::law_valid_fields_are_written(msg);
    round_trip::law_header_round_trip(msg, serial);
    round_trip::lemma_header_length(msg, serial);
    reveal(frame);
    assert(all =~= head + (msg.body.buf + rest));
    lemma_prefix_concat(head, msg.body.buf + rest);
    lemma_header_prefix(head, all);
    assert(header_len(all, msg.body.byteorder) == header_len(head, msg.body.byteorder));
    assert(all.take(head.len() as int) =~= head);
}

/// The state asks for what completes the part that is being read: the first 16 bytes, then the
/// rest of the header, padding included, and then the body.
pub proof fn law_reads_complete_a_part(state: RecvState)
    requires
        state.wf(),
        state.waiting(),
    ensures
        state.wanted() > 0,
        ({
            let bytes = state.pending();
            let reached = bytes.len() + state.wanted();
            &&& bytes.len() < 16 ==> reached == 16
            &&& bytes.len() >= 16 ==> (wire_format::header_at_start(bytes) matches Ok(hdr) && {
                let fields = utils::u32_value(bytes.subrange(12, 16), hdr.byteorder);
                let total = utils::align_up(16 + fields, 8);
                &&& bytes.len() < total ==> reached == total
                &&& bytes.len() >= total ==> reached == total + hdr.body_len
            })
        }),
{
    assert(state.unused() =~= seq![]);
    let bytes = state.in_state.bytes(state.head@);
    assert(state.pending() =~= bytes);
    if let InState::Finishing(hdr, _, b) = state.in_state {
        reveal(header_done);
        lemma_prefix_concat(state.head@, b@);
        lemma_header_prefix(state.head@, bytes);
        assert(header_len(bytes, hdr.byteorder) == header_len(state.head@, hdr.byteorder));
    }
}

} // verus!
