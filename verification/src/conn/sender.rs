//! Putting messages on a stream that does not always take all bytes at once.
//!
//! Messages that could not be written completely wait in a queue. Their bytes go out in the
//! order in which they were queued, and before those of any later message. The file descriptors
//! of a message go out with its first byte.
use std::collections::VecDeque;

use arrayvec::ArrayVec;
use vstd::prelude::*;

use rustbus::wire::UnixFd;

use super::ancillary;
use super::ancillary::SocketAncillary;
use super::recv;
use super::recv::DBUS_MAX_FD_MESSAGE;
use crate::rustbus_core::message_builder;
use crate::rustbus_core::message_builder::{MarshalledMessage, MessageView};
use crate::rustbus_core::round_trip;
use crate::rustbus_core::wire_format::MarshalError;
use crate::rustbus_core::{MessageType, Serial};

verus! {

/// The most messages that wait to be written.
pub const MAX_OUT_QUEUE: usize = 1024;

/// The most pieces that are written at a time.
pub const MAX_IO_SLICES: usize = 32;

/// A vector of `arrayvec`, which holds a bounded number of items.
#[verifier::external_type_specification]
#[verifier::external_body]
#[verifier::reject_recursive_types(T)]
pub struct ExArrayVec<T, const CAP: usize>(arrayvec::ArrayVec<T, CAP>);

/// Names the pieces that an `ArrayVec` holds, in order.
pub uninterp spec fn pieces(v: arrayvec::ArrayVec<&[u8], 32>) -> Seq<Seq<u8>>;

/// Calls `ArrayVec::new`: a vector without pieces.
#[verifier::external_body]
fn new_pieces<'a>() -> (v: ArrayVec<&'a [u8], 32>)
    ensures
        pieces(v) == Seq::<Seq<u8>>::empty(),
{
    ArrayVec::new()
}

/// Calls `ArrayVec::is_full`: whether the vector holds as many pieces as it can.
#[verifier::external_body]
fn pieces_full(v: &ArrayVec<&[u8], 32>) -> (full: bool)
    ensures
        full == (pieces(*v).len() >= 32),
{
    v.is_full()
}

/// Calls `ArrayVec::is_empty`: whether the vector holds no pieces.
#[verifier::external_body]
fn pieces_empty(v: &ArrayVec<&[u8], 32>) -> (empty: bool)
    ensures
        empty == (pieces(*v).len() == 0),
{
    v.is_empty()
}

/// Calls `ArrayVec::push`, which panics where the vector is full: appends a piece.
#[verifier::external_body]
fn push_piece<'a>(v: &mut ArrayVec<&'a [u8], 32>, piece: &'a [u8])
    requires
        pieces(*old(v)).len() < 32,
    ensures
        pieces(*final(v)) == pieces(*old(v)).push(piece@),
{
    v.push(piece)
}

/// Whether, at any time, `UnixFd::take_raw_fd` took `raw` out of `fd`, or found nothing in it.
pub uninterp spec fn took(fd: UnixFd, raw: Option<i32>) -> bool;

/// Calls `UnixFd::take_raw_fd`: takes the descriptor out. `None` where it was taken before,
/// which depends on who else holds the same `UnixFd`, so nothing is stated of which of the two
/// comes.
#[verifier::external_body]
fn take_raw_fd(fd: UnixFd) -> (raw: Option<i32>)
    ensures
        took(fd, raw),
{
    fd.take_raw_fd()
}

/// A message that is being written.
#[derive(Debug)]
pub struct RawOut {
    /// How many bytes were written.
    pub written: usize,
    pub header: Vec<u8>,
    pub body: Vec<u8>,
    /// The file descriptors that go out with the first byte.
    pub fds: Vec<i32>,
}

impl RawOut {
    /// All bytes of the message.
    pub open spec fn bytes(self) -> Seq<u8> {
        self.header@ + self.body@
    }

    /// The bytes that are left to write.
    pub open spec fn left(self) -> Seq<u8> {
        self.bytes().skip(self.written as int)
    }

    /// Some bytes are left, and the file descriptors fit into one control message.
    pub open spec fn wf(self) -> bool {
        &&& self.written < self.bytes().len()
        &&& self.bytes().len() <= usize::MAX
        &&& self.fds@.len() <= DBUS_MAX_FD_MESSAGE
    }

    /// The file descriptors have not gone out.
    pub open spec fn fds_due(self) -> bool {
        self.written == 0 && self.fds@.len() > 0
    }

    /// The same message with `count` more bytes written.
    pub open spec fn advanced(self, count: int) -> RawOut {
        RawOut { written: (self.written + count) as usize, ..self }
    }

    /// The pieces that are left to write.
    pub open spec fn pieces_left(self) -> Seq<Seq<u8>> {
        if self.written < self.header@.len() {
            if self.body@.len() == 0 {
                seq![self.header@.skip(self.written as int)]
            } else {
                seq![self.header@.skip(self.written as int), self.body@]
            }
        } else {
            seq![self.body@.skip(self.written - self.header@.len())]
        }
    }

    /// How many bytes are left to write.
    fn to_write(&self) -> (count: usize)
        requires
            self.wf(),
        ensures
            count == self.left().len(),
    {
        self.header.len() + self.body.len() - self.written
    }

    /// The pieces that are left to write: one, or two.
    fn out_bufs_left(&self) -> (bufs: (&[u8], Option<&[u8]>))
        requires
            self.wf(),
        ensures
            piece_pair(bufs) == self.pieces_left(),
    {
        bufs_left(self.written, self.header.as_slice(), self.body.as_slice())
    }

    /// Counts `adv` bytes as written, or as many as are left. Returns how many bytes that was
    /// too many.
    fn advance(&mut self, adv: usize) -> (rest: usize)
        requires
            old(self).wf(),
        ensures
            if adv < old(self).left().len() {
                &&& rest == 0
                &&& *final(self) == old(self).advanced(adv as int)
                &&& final(self).wf()
            } else {
                rest == adv - old(self).left().len()
            },
            final(self).fds == old(self).fds,
    {
        let left: usize = self.to_write();
        if adv < left {
            self.written = self.written + adv;
            0
        } else {
            self.written = self.written + left;
            adv - left
        }
    }
}

/// The pieces as a sequence.
pub open spec fn piece_pair(bufs: (&[u8], Option<&[u8]>)) -> Seq<Seq<u8>> {
    match bufs.1 {
        Some(second) => seq![bufs.0@, second@],
        None => seq![bufs.0@],
    }
}

/// What is left of a header and a body of which the first `written` bytes were written.
fn bufs_left<'a>(written: usize, header: &'a [u8], body: &'a [u8]) -> (bufs: (
    &'a [u8],
    Option<&'a [u8]>,
))
    requires
        written <= header@.len() + body@.len(),
    ensures
        piece_pair(bufs) == if written < header@.len() {
            if body@.len() == 0 {
                seq![header@.skip(written as int)]
            } else {
                seq![header@.skip(written as int), body@]
            }
        } else {
            seq![body@.skip(written - header@.len())]
        },
{
    if written < header.len() {
        let rest = vstd::slice::slice_subrange(header, written, header.len());
        assert(rest@ =~= header@.skip(written as int));
        if body.len() == 0 {
            (rest, None)
        } else {
            (rest, Some(body))
        }
    } else {
        let rest = vstd::slice::slice_subrange(body, written - header.len(), body.len());
        assert(rest@ =~= body@.skip(written - header@.len()));
        (rest, None)
    }
}

/// The queue with `count` bytes written: messages that are complete leave it.
pub open spec fn advanced(queue: Seq<RawOut>, count: int) -> Seq<RawOut>
    decreases queue.len(),
{
    if queue.len() == 0 {
        queue
    } else {
        let left = queue[0].left().len();
        if count < left {
            seq![queue[0].advanced(count)] + queue.skip(1)
        } else {
            advanced(queue.skip(1), count - left)
        }
    }
}

/// The bytes that the messages in the queue have left to write.
pub open spec fn all_left(queue: Seq<RawOut>) -> Seq<u8>
    decreases queue.len(),
{
    if queue.len() == 0 {
        seq![]
    } else {
        queue[0].left() + all_left(queue.skip(1))
    }
}

/// The file descriptors of the messages.
pub open spec fn all_fds(queue: Seq<RawOut>) -> Seq<i32>
    decreases queue.len(),
{
    if queue.len() == 0 {
        seq![]
    } else {
        queue[0].fds@ + all_fds(queue.skip(1))
    }
}

pub open spec fn queue_wf(queue: Seq<RawOut>) -> bool {
    forall|i: int| 0 <= i < queue.len() ==> (#[trigger] queue[i]).wf()
}

/// As many of the pieces as fit behind those that are there.
pub open spec fn with_pieces(there: Seq<Seq<u8>>, more: Seq<Seq<u8>>) -> Seq<Seq<u8>> {
    if there.len() + more.len() <= MAX_IO_SLICES {
        there + more
    } else {
        there + more.take(MAX_IO_SLICES - there.len())
    }
}

/// The pieces of the messages in the queue that are written together, behind those that are
/// there: as many as fit, up to a message whose file descriptors have not gone out. Such a
/// message can only come first.
pub open spec fn gathered(queue: Seq<RawOut>, there: Seq<Seq<u8>>) -> Seq<Seq<u8>>
    decreases queue.len(),
{
    if queue.len() == 0 || there.len() >= MAX_IO_SLICES || (queue[0].fds_due() && there.len()
        > 0) {
        there
    } else {
        gathered(queue.skip(1), with_pieces(there, queue[0].pieces_left()))
    }
}

/// Takes the first message, and with it the responsibility for its file descriptors.
fn pop_complete(queue: &mut VecDeque<RawOut>, fds: &mut Vec<i32>)
    requires
        old(queue)@.len() > 0,
    ensures
        final(queue)@ == old(queue)@.skip(1),
        final(fds)@ == old(fds)@ + old(queue)@[0].fds@,
{
    if let Some(out) = queue.pop_front() {
        let mut done = out.fds;
        fds.append(&mut done);
    }
    assert(queue@ =~= old(queue)@.skip(1));
}

/// Counts `written` bytes as written. Messages that are complete leave the queue, and their
/// file descriptors are appended to `done`: they are to be closed. Returns how many bytes there
/// were beyond those of the queue.
fn update_written(queue: &mut VecDeque<RawOut>, written: usize, done: &mut Vec<i32>) -> (rest:
    usize)
    requires
        queue_wf(old(queue)@),
    ensures
        queue_wf(final(queue)@),
        final(queue)@ == advanced(old(queue)@, written as int),
        rest == if written > all_left(old(queue)@).len() {
            written - all_left(old(queue)@).len()
        } else {
            0
        },
        final(queue)@.len() <= old(queue)@.len(),
        final(done)@ == old(done)@ + all_fds(
            old(queue)@.take(old(queue)@.len() - final(queue)@.len()),
        ),
    decreases old(queue)@.len(),
{
    if queue.len() == 0 {
        assert(old(queue)@.take(0) =~= seq![]);
        assert(done@ + all_fds(seq![]) =~= done@);
        return written;
    }
    let ghost before = queue@;
    proof {
        assert(before[0].wf());
        assert forall|i: int| 0 <= i < before.skip(1).len() implies (
            #[trigger] before.skip(1)[i]).wf() by {
            assert(before.skip(1)[i] == before[i + 1]);
        }
    }
    let left: usize = queue[0].to_write();
    if written < left {
        match queue.pop_front() {
            Some(out) => {
                let mut out = out;
                let _ = out.advance(written);
                queue.push_front(out);
            },
            None => {},
        }
        proof {
            assert(queue@ =~= advanced(before, written as int));
            assert forall|i: int| 0 <= i < queue@.len() implies (#[trigger] queue@[i]).wf() by {
                if i > 0 {
                    assert(queue@[i] == before[i]);
                }
            }
            assert(before.take(0) =~= seq![]);
            assert(done@ + all_fds(seq![]) =~= done@);
        }
        return 0;
    }
    let ghost done_before = done@;
    pop_complete(queue, done);
    if written == left {
        proof {
            lemma_advanced_none(before.skip(1));
            lemma_all_left_split(before);
            assert(before.take(1).skip(1) =~= seq![]);
            assert(all_fds(seq![]) =~= seq![]);
            assert(all_fds(before.take(1)) =~= before[0].fds@);
        }
        return 0;
    }
    let ghost done_middle = done@;
    let rest = update_written(queue, written - left, done);
    proof {
        let tail = before.skip(1);
        let popped = tail.len() - queue@.len();
        assert(before.take(popped + 1).skip(1) =~= tail.take(popped));
        assert(done@ =~= done_before + (before[0].fds@ + all_fds(tail.take(popped))));
    }
    rest
}

proof fn lemma_advanced_none(queue: Seq<RawOut>)
    requires
        queue_wf(queue),
    ensures
        advanced(queue, 0) == queue,
{
    if queue.len() > 0 {
        assert(queue[0].wf());
        assert(queue[0].left().len() > 0);
        assert(advanced(queue, 0) =~= queue);
    }
}

proof fn lemma_all_left_split(queue: Seq<RawOut>)
    requires
        queue.len() > 0,
    ensures
        all_left(queue) == queue[0].left() + all_left(queue.skip(1)),
{
}

/// Whether the first message of the queue sends its file descriptors now.
pub open spec fn fds_to_send(queue: Seq<RawOut>) -> Seq<i32> {
    if queue.len() > 0 && queue[0].fds_due() {
        queue[0].fds@
    } else {
        seq![]
    }
}

/// The control messages that carry the file descriptors.
pub open spec fn control_bytes(fds: Seq<i32>, layout: ancillary::CmsgLayout) -> Seq<u8> {
    if fds.len() > 0 {
        ancillary::entry_bytes(ancillary::rights_entry(fds, layout), layout)
    } else {
        seq![]
    }
}

/// A buffer for control messages that is empty and has room for the file descriptors of one
/// message.
pub open spec fn fresh(anc: SocketAncillary) -> bool {
    &&& anc.wf()
    &&& anc.layout().wf()
    &&& anc.used() == Seq::<u8>::empty()
    &&& anc.size() >= 144
}

proof fn lemma_room_for_fds(count: int, layout: ancillary::CmsgLayout)
    requires
        layout.wf(),
        0 <= count <= DBUS_MAX_FD_MESSAGE,
    ensures
        ancillary::has_room(144, 0, 4 * count, layout),
        forall|capacity: int|
            capacity >= 144 ==> #[trigger] ancillary::has_room(capacity, 0, 4 * count, layout),
{
    crate::utils::lemma_align_up(4 * count, layout.word as int);
    assert(crate::utils::align_up(4 * count, layout.word as int) <= 128) by {
        if layout.word == 8 {
            assert(crate::utils::align_up(4 * count, 8) <= 128);
        } else {
            assert(crate::utils::align_up(4 * count, 4) <= 128);
        }
    }
}

/// Puts file descriptors into an empty buffer.
fn attach_fds(anc: &mut SocketAncillary, fds: &Vec<i32>)
    requires
        fresh(*old(anc)),
        fds@.len() <= DBUS_MAX_FD_MESSAGE,
        fds@.len() > 0,
    ensures
        final(anc).wf(),
        final(anc).layout() == old(anc).layout(),
        final(anc).used() == control_bytes(fds@, old(anc).layout()),
{
    proof {
        lemma_room_for_fds(fds@.len() as int, anc.layout());
    }
    let _ = anc.add_fds(fds.as_slice());
    assert(anc.used() =~= control_bytes(fds@, anc.layout()));
}

/// Collects what the messages in the queue have to write now.
fn populate<'a>(
    queue: &'a VecDeque<RawOut>,
    ios: &mut ArrayVec<&'a [u8], 32>,
    anc: &mut SocketAncillary,
)
    requires
        queue_wf(queue@),
        pieces(*old(ios)).len() == 0,
        fresh(*old(anc)),
    ensures
        pieces(*final(ios)) == gathered(queue@, seq![]),
        final(anc).wf(),
        final(anc).layout() == old(anc).layout(),
        final(anc).used() == control_bytes(fds_to_send(queue@), old(anc).layout()),
        fds_to_send(queue@).len() == 0 ==> fresh(*final(anc)),
{
    let mut i: usize = 0;
    assert(pieces(*ios) =~= seq![]);
    assert(queue@.skip(0) =~= queue@);
    while i < queue.len()
        invariant_except_break
            i <= queue@.len(),
            gathered(queue@, seq![]) == gathered(queue@.skip(i as int), pieces(*ios)),
            i == 0 ==> pieces(*ios).len() == 0 && fresh(*anc),
            i > 0 ==> pieces(*ios).len() > 0 && anc.used() == control_bytes(
                fds_to_send(queue@),
                anc.layout(),
            ),
        invariant
            queue_wf(queue@),
            anc.wf(),
            anc.layout() == old(anc).layout(),
            fds_to_send(queue@).len() == 0 ==> fresh(*anc),
        ensures
            gathered(queue@, seq![]) == pieces(*ios),
            anc.used() == control_bytes(fds_to_send(queue@), anc.layout()),
        decreases queue@.len() - i,
    {
        let ghost rest = queue@.skip(i as int);
        assert(rest[0] == queue@[i as int]);
        assert(rest.skip(1) =~= queue@.skip(i as int + 1));
        if pieces_full(ios) {
            break;
        }
        let out = &queue[i];
        assert(queue@[i as int].wf());
        if out.written == 0 && out.fds.len() > 0 {
            if pieces_empty(ios) {
                attach_fds(anc, &out.fds);
            } else {
                break;
            }
        }
        let (buf0, buf1_opt) = out.out_bufs_left();
        let ghost there = pieces(*ios);
        push_piece(ios, buf0);
        if let Some(buf1) = buf1_opt {
            if !pieces_full(ios) {
                push_piece(ios, buf1);
            }
        }
        proof {
            assert(pieces(*ios) =~= with_pieces(there, queue@[i as int].pieces_left()));
        }
        i += 1;
    }
}

/// Why a message was not written.
#[derive(Debug, PartialEq, Eq)]
pub enum SendError {
    /// Its header is not valid.
    Marshal(MarshalError),
    /// It has more file descriptors than may go out with a message.
    TooManyFds,
    /// Its bytes cannot be counted.
    TooLong,
    /// One of its file descriptors was taken before. The ones before it, which were taken now,
    /// are to be closed.
    MissingFd(Vec<i32>),
}

/// The state of the sending direction of a stream.
#[derive(Debug)]
pub struct SendState {
    with_fd: bool,
    idx: u64,
    queue: VecDeque<RawOut>,
}

/// What became of the bytes that were written.
#[derive(Debug)]
pub enum Progress {
    /// The message is not complete.
    Unfinished,
    /// The message is complete.
    Finished,
}

/// Why a message cannot be written: it has no kind, its header is not valid, its file descriptors
/// may not go out, or it is too long.
pub open spec fn send_error(msg: MessageView, serial: u32, with_fd: bool) -> Option<SendError> {
    if msg.typ is Invalid {
        Some(SendError::Marshal(MarshalError::InvalidType))
    } else if !message_builder::writable_header(msg) {
        Some(SendError::Marshal(message_builder::header_error(msg)))
    } else if (!with_fd && msg.body.fds.len() > 0) || msg.body.fds.len() > DBUS_MAX_FD_MESSAGE {
        Some(SendError::TooManyFds)
    } else if message_builder::message_header(msg, serial).len() + msg.body.buf.len()
        > usize::MAX {
        Some(SendError::TooLong)
    } else {
        None
    }
}

/// A message of which nothing was written.
pub open spec fn unwritten(out: RawOut, msg: MessageView, serial: u32) -> bool {
    &&& out.written == 0
    &&& out.header@ == message_builder::message_header(msg, serial)
    &&& out.body@ == msg.body.buf
    &&& out.fds@.len() == msg.body.fds.len()
    &&& all_taken(msg.body.fds, out.fds@)
}

/// The descriptors `raw` were taken out of the first of the `UnixFd`s.
pub open spec fn all_taken(fds: Seq<UnixFd>, raw: Seq<i32>) -> bool {
    forall|i: int| 0 <= i < raw.len() ==> took(fds[i], Some(#[trigger] raw[i]))
}

/// The descriptors `raw` were taken out of the first of the `UnixFd`s, and the next one was
/// empty.
pub open spec fn one_missing(fds: Seq<UnixFd>, raw: Seq<i32>) -> bool {
    &&& raw.len() < fds.len()
    &&& all_taken(fds, raw)
    &&& took(fds[raw.len() as int], None)
}

/// Takes the descriptors out of the `UnixFd`s, or as many as there are before one that was
/// taken.
fn take_raw_fds(fds: Vec<UnixFd>) -> (result: Result<Vec<i32>, Vec<i32>>)
    ensures
        match result {
            Ok(raw) => raw@.len() == fds@.len() && all_taken(fds@, raw@),
            Err(raw) => one_missing(fds@, raw@),
        },
{
    let mut raw: Vec<i32> = Vec::new();
    let mut i: usize = 0;
    while i < fds.len()
        invariant
            i <= fds@.len(),
            raw@.len() == i,
            all_taken(fds@, raw@),
        decreases fds@.len() - i,
    {
        match take_raw_fd(fds[i].clone()) {
            Some(fd) => {
                raw.push(fd);
            },
            None => {
                return Err(raw);
            },
        }
        i += 1;
    }
    Ok(raw)
}

impl SendState {
    /// The messages that wait to be written.
    pub closed spec fn waiting(self) -> Seq<RawOut> {
        self.queue@
    }

    /// How many messages were ever queued.
    pub closed spec fn queued(self) -> u64 {
        self.idx
    }

    pub closed spec fn with_fd(self) -> bool {
        self.with_fd
    }

    pub closed spec fn wf(self) -> bool {
        queue_wf(self.queue@) && self.queue@.len() <= self.idx
    }

    /// The index of the first message that waits: all messages with a lower index are written.
    pub open spec fn first_waiting(self) -> int {
        self.queued() - self.waiting().len()
    }

    pub fn new(with_fd: bool) -> (state: SendState)
        ensures
            state.wf(),
            state.waiting() == Seq::<RawOut>::empty(),
            state.queued() == 0,
            state.with_fd() == with_fd,
    {
        SendState { with_fd, idx: 0, queue: VecDeque::new() }
    }

    /// The index of the first message that waits.
    pub fn current_idx(&self) -> (idx: u64)
        requires
            self.wf(),
        ensures
            idx == self.first_waiting(),
    {
        self.idx - self.queue.len() as u64
    }

    /// Whether messages wait to be written.
    pub fn is_empty(&self) -> (empty: bool)
        ensures
            empty == (self.waiting().len() == 0),
    {
        self.queue.len() == 0
    }

    /// Prepares a message for writing: writes its header and takes its file descriptors.
    ///
    /// Whether a descriptor is still there depends on who else holds it.
    pub fn prepare(&self, msg: &MarshalledMessage, serial: Serial) -> (result: Result<
        RawOut,
        SendError,
    >)
        ensures
            match send_error(msg@, serial@, self.with_fd()) {
                Some(error) => result matches Err(e) && e == error,
                None => match result {
                    Ok(out) => out.wf() && unwritten(out, msg@, serial@),
                    Err(error) => error matches SendError::MissingFd(taken) && one_missing(
                        msg@.body.fds,
                        taken@,
                    ),
                },
            },
    {
        if matches!(msg.typ, MessageType::Invalid) {
            return Err(SendError::Marshal(MarshalError::InvalidType));
        }
        let mut header: Vec<u8> = Vec::with_capacity(1024);
        match msg.marshal_header(serial, &mut header) {
            Ok(()) => {},
            Err(error) => {
                return Err(SendError::Marshal(error));
            },
        }
        let fds = msg.body.get_fds();
        if (!self.with_fd && fds.len() > 0) || fds.len() > DBUS_MAX_FD_MESSAGE {
            return Err(SendError::TooManyFds);
        }
        if msg.get_buf().len() > usize::MAX - header.len() {
            return Err(SendError::TooLong);
        }
        proof {
            message_builder::lemma_header_not_empty(msg@, serial@);
        }
        match take_raw_fds(fds) {
            Ok(raw) => Ok(
                RawOut {
                    written: 0,
                    header,
                    body: vstd::slice::slice_to_vec(msg.get_buf()),
                    fds: raw,
                },
            ),
            Err(taken) => Err(SendError::MissingFd(taken)),
        }
    }

    /// Collects what is to be written next of the messages that wait. Their file descriptors go
    /// into `anc`.
    pub fn gather<'a>(&'a self, anc: &mut SocketAncillary) -> (ios: ArrayVec<&'a [u8], 32>)
        requires
            self.wf(),
            fresh(*old(anc)),
        ensures
            pieces(ios) == gathered(self.waiting(), seq![]),
            final(anc).used() == control_bytes(fds_to_send(self.waiting()), old(anc).layout()),
            final(anc).wf(),
            final(anc).layout() == old(anc).layout(),
    {
        let mut ios = new_pieces();
        populate(&self.queue, &mut ios, anc);
        ios
    }

    /// Collects what is to be written next of the messages that wait and of `out`, which comes
    /// behind them. Their file descriptors go into `anc`.
    pub fn gather_with<'a>(&'a self, out: &'a RawOut, anc: &mut SocketAncillary) -> (ios: ArrayVec<
        &'a [u8],
        32,
    >)
        requires
            self.wf(),
            out.wf(),
            fresh(*old(anc)),
        ensures
            pieces(ios) == {
                let there = gathered(self.waiting(), seq![]);
                if there.len() >= MAX_IO_SLICES || (out.fds@.len() > 0 && there.len() > 0) {
                    there
                } else {
                    with_pieces(there, out.pieces_left())
                }
            },
            final(anc).used() == control_bytes(
                if self.waiting().len() > 0 {
                    fds_to_send(self.waiting())
                } else {
                    fds_to_send(seq![*out])
                },
                old(anc).layout(),
            ),
            final(anc).wf(),
            final(anc).layout() == old(anc).layout(),
    {
        let mut ios = new_pieces();
        populate(&self.queue, &mut ios, anc);
        let ghost there = pieces(ios);
        proof {
            lemma_gathered_some(self.queue@);
        }
        if !pieces_full(&ios) && (out.fds.len() == 0 || pieces_empty(&ios)) {
            let (buf0, buf1_opt) = out.out_bufs_left();
            if out.written == 0 && out.fds.len() > 0 {
                attach_fds(anc, &out.fds);
            }
            push_piece(&mut ios, buf0);
            if let Some(buf1) = buf1_opt {
                if !pieces_full(&ios) {
                    push_piece(&mut ios, buf1);
                }
            }
            assert(pieces(ios) =~= with_pieces(there, out.pieces_left()));
        }
        ios
    }

    /// Counts `written` bytes of the messages that wait as written. Messages that are complete
    /// leave the queue. Returns their file descriptors, which are to be closed.
    pub fn wrote(&mut self, written: usize) -> (done: Vec<i32>)
        requires
            old(self).wf(),
            written <= all_left(old(self).waiting()).len(),
        ensures
            final(self).wf(),
            final(self).with_fd() == old(self).with_fd(),
            final(self).queued() == old(self).queued(),
            final(self).waiting() == advanced(old(self).waiting(), written as int),
            done@ == all_fds(
                old(self).waiting().take(
                    old(self).waiting().len() - final(self).waiting().len(),
                ),
            ),
    {
        let mut done: Vec<i32> = Vec::new();
        let _ = update_written(&mut self.queue, written, &mut done);
        assert(done@ =~= all_fds(
            old(self).waiting().take(old(self).waiting().len() - self.waiting().len()),
        ));
        done
    }

    /// Counts `written` bytes as written, first of the messages that wait and then of `out`.
    /// Returns whether `out` is complete, and the file descriptors of the messages that left the
    /// queue, which are to be closed.
    pub fn wrote_with(&mut self, out: &mut RawOut, written: usize) -> (result: (Progress, Vec<i32>))
        requires
            old(self).wf(),
            old(out).wf(),
            written <= all_left(old(self).waiting()).len() + old(out).left().len(),
        ensures
            final(self).wf(),
            final(self).with_fd() == old(self).with_fd(),
            final(self).queued() == old(self).queued(),
            final(self).waiting() == advanced(old(self).waiting(), written as int),
            result.1@ == all_fds(
                old(self).waiting().take(
                    old(self).waiting().len() - final(self).waiting().len(),
                ),
            ),
            ({
                let before = all_left(old(self).waiting()).len();
                let own = if written > before {
                    written - before
                } else {
                    0
                };
                if own < old(out).left().len() {
                    &&& result.0 is Unfinished
                    &&& *final(out) == old(out).advanced(own)
                    &&& final(out).wf()
                } else {
                    result.0 is Finished
                }
            }),
            final(out).fds == old(out).fds,
    {
        let mut done: Vec<i32> = Vec::new();
        let own = update_written(&mut self.queue, written, &mut done);
        assert(done@ =~= all_fds(
            old(self).waiting().take(old(self).waiting().len() - self.waiting().len()),
        ));
        let left: usize = out.to_write();
        let _ = out.advance(own);
        if own < left {
            (Progress::Unfinished, done)
        } else {
            (Progress::Finished, done)
        }
    }

    /// Queues a message that the stream did not take completely. Returns its index, or the
    /// message where the queue is full.
    pub fn enqueue(&mut self, out: RawOut) -> (result: Result<u64, RawOut>)
        requires
            old(self).wf(),
            out.wf(),
            old(self).queued() < u64::MAX,
        ensures
            final(self).wf(),
            final(self).with_fd() == old(self).with_fd(),
            match result {
                Ok(idx) => {
                    &&& old(self).waiting().len() < MAX_OUT_QUEUE
                    &&& idx == old(self).queued()
                    &&& final(self).queued() == old(self).queued() + 1
                    &&& final(self).waiting() == old(self).waiting().push(out)
                    &&& idx == final(self).first_waiting() + final(self).waiting().len() - 1
                },
                Err(back) => {
                    &&& old(self).waiting().len() >= MAX_OUT_QUEUE
                    &&& back == out
                    &&& final(self).queued() == old(self).queued()
                    &&& final(self).waiting() == old(self).waiting()
                },
            },
    {
        if self.queue.len() >= MAX_OUT_QUEUE {
            return Err(out);
        }
        self.queue.push_back(out);
        let idx: u64 = self.idx;
        self.idx = self.idx + 1;
        Ok(idx)
    }
}

/// What the stream did with the bytes that it was given.
#[derive(Clone, Copy, Debug, PartialEq, Eq, Structural)]
pub enum WriteEvent {
    /// It took so many bytes.
    Written(usize),
    /// It takes no bytes now.
    WouldBlock,
}

/// What to do with a message after the stream was given bytes.
#[derive(Debug)]
pub enum WriteStep {
    /// More of it is to be written.
    Again(RawOut),
    /// It is written.
    Sent,
    /// It waits to be written, under this index.
    Queued(u64),
    /// It cannot wait, because too many messages do.
    Full(RawOut),
}

impl SendState {
    /// Decides what to do with a message after the stream was given what `gather_with` collected.
    /// Returns that, and the file descriptors that are to be closed.
    pub fn write_event(&mut self, out: RawOut, event: WriteEvent) -> (result: (
        WriteStep,
        Vec<i32>,
    ))
        requires
            old(self).wf(),
            out.wf(),
            old(self).queued() < u64::MAX,
            event matches WriteEvent::Written(written) ==> written <= all_left(
                old(self).waiting(),
            ).len() + out.left().len(),
        ensures
            final(self).wf(),
            final(self).with_fd() == old(self).with_fd(),
            match event {
                WriteEvent::Written(written) => {
                    let before = all_left(old(self).waiting()).len();
                    let own = if written > before {
                        written - before
                    } else {
                        0
                    };
                    let done = all_fds(
                        old(self).waiting().take(
                            old(self).waiting().len() - final(self).waiting().len(),
                        ),
                    );
                    &&& final(self).queued() == old(self).queued()
                    &&& final(self).waiting() == advanced(old(self).waiting(), written as int)
                    &&& if own < out.left().len() {
                        &&& result.0 matches WriteStep::Again(o) && o == out.advanced(own)
                            && o.wf()
                        &&& result.1@ == done
                    } else {
                        &&& result.0 is Sent
                        &&& result.1@ == done + out.fds@
                    }
                },
                WriteEvent::WouldBlock => {
                    &&& result.1@.len() == 0
                    &&& if old(self).waiting().len() < MAX_OUT_QUEUE {
                        &&& result.0 matches WriteStep::Queued(idx) && idx == old(self).queued()
                        &&& final(self).queued() == old(self).queued() + 1
                        &&& final(self).waiting() == old(self).waiting().push(out)
                    } else {
                        &&& result.0 matches WriteStep::Full(back) && back == out
                        &&& final(self).queued() == old(self).queued()
                        &&& final(self).waiting() == old(self).waiting()
                    }
                },
            },
    {
        match event {
            WriteEvent::Written(written) => {
                let mut out = out;
                let (progress, done) = self.wrote_with(&mut out, written);
                match progress {
                    Progress::Unfinished => (WriteStep::Again(out), done),
                    Progress::Finished => {
                        let mut close = done;
                        let mut own = out.fds;
                        close.append(&mut own);
                        (WriteStep::Sent, close)
                    },
                }
            },
            WriteEvent::WouldBlock => match self.enqueue(out) {
                Ok(idx) => (WriteStep::Queued(idx), Vec::new()),
                Err(back) => (WriteStep::Full(back), Vec::new()),
            },
        }
    }

    /// Decides whether to go on after the stream was given what `gather` collected. Returns the
    /// index of the first message that waits, where nothing more is to be written now, and the
    /// file descriptors that are to be closed.
    pub fn finish_event(&mut self, event: WriteEvent) -> (result: (Option<u64>, Vec<i32>))
        requires
            old(self).wf(),
            event matches WriteEvent::Written(written) ==> written <= all_left(
                old(self).waiting(),
            ).len(),
        ensures
            final(self).wf(),
            final(self).with_fd() == old(self).with_fd(),
            final(self).queued() == old(self).queued(),
            match event {
                WriteEvent::Written(written) => {
                    &&& final(self).waiting() == advanced(old(self).waiting(), written as int)
                    &&& result.1@ == all_fds(
                        old(self).waiting().take(
                            old(self).waiting().len() - final(self).waiting().len(),
                        ),
                    )
                    &&& match result.0 {
                        Some(idx) => final(self).waiting().len() == 0 && idx
                            == final(self).first_waiting(),
                        None => final(self).waiting().len() > 0,
                    }
                },
                WriteEvent::WouldBlock => {
                    &&& final(self).waiting() == old(self).waiting()
                    &&& result.1@.len() == 0
                    &&& result.0 matches Some(idx) && idx == final(self).first_waiting()
                },
            },
    {
        match event {
            WriteEvent::Written(written) => {
                let done = self.wrote(written);
                if self.is_empty() {
                    (Some(self.current_idx()), done)
                } else {
                    (None, done)
                }
            },
            WriteEvent::WouldBlock => (Some(self.current_idx()), Vec::new()),
        }
    }

    /// Whether the message that waited under this index is written.
    pub fn is_written(&self, idx: u64) -> (written: bool)
        requires
            self.wf(),
        ensures
            written == (idx < self.first_waiting()),
    {
        self.current_idx() > idx
    }
}

/// Where messages wait, something of them is collected.
proof fn lemma_gathered_some(queue: Seq<RawOut>)
    ensures
        queue.len() > 0 ==> gathered(queue, seq![]).len() > 0,
        queue.len() == 0 ==> gathered(queue, seq![]).len() == 0,
{
    if queue.len() > 0 {
        let first = with_pieces(seq![], queue[0].pieces_left());
        assert(first.len() > 0);
        lemma_gathered_grows(queue.skip(1), first);
    }
}

proof fn lemma_gathered_grows(queue: Seq<RawOut>, there: Seq<Seq<u8>>)
    ensures
        gathered(queue, there).len() >= there.len(),
    decreases queue.len(),
{
    if !(queue.len() == 0 || there.len() >= MAX_IO_SLICES || (queue[0].fds_due() && there.len()
        > 0)) {
        lemma_gathered_grows(queue.skip(1), with_pieces(there, queue[0].pieces_left()));
    }
}

/// The bytes of pieces, one behind the other.
pub open spec fn flat(parts: Seq<Seq<u8>>) -> Seq<u8>
    decreases parts.len(),
{
    if parts.len() == 0 {
        seq![]
    } else {
        flat(parts.drop_last()) + parts.last()
    }
}

proof fn lemma_flat_concat(a: Seq<Seq<u8>>, b: Seq<Seq<u8>>)
    ensures
        flat(a + b) == flat(a) + flat(b),
    decreases b.len(),
{
    if b.len() == 0 {
        assert(a + b =~= a);
        assert(flat(a) + flat(b) =~= flat(a));
    } else {
        assert((a + b).drop_last() =~= a + b.drop_last());
        lemma_flat_concat(a, b.drop_last());
        assert(flat(a + b) =~= flat(a) + flat(b));
    }
}

/// The pieces of a message are its bytes that are left.
proof fn lemma_pieces_left(out: RawOut)
    requires
        out.wf(),
    ensures
        flat(out.pieces_left()) == out.left(),
{
    let parts = out.pieces_left();
    assert(flat(seq![]) =~= seq![]);
    assert(parts.drop_last().len() <= 1);
    if parts.len() == 1 {
        assert(parts.drop_last() =~= seq![]);
        assert(flat(parts) =~= parts[0]);
    } else {
        let first = parts.drop_last();
        assert(first.drop_last() =~= seq![]);
        assert(flat(first) =~= parts[0]);
        assert(flat(parts) =~= parts[0] + parts[1]);
    }
    assert(flat(parts) =~= out.left());
}

/// Taking fewer pieces gives the first bytes.
proof fn lemma_flat_prefix(parts: Seq<Seq<u8>>, count: int)
    requires
        0 <= count <= parts.len(),
    ensures
        flat(parts.take(count)).is_prefix_of(flat(parts)),
{
    lemma_flat_concat(parts.take(count), parts.skip(count));
    assert(parts =~= parts.take(count) + parts.skip(count));
    let a = flat(parts.take(count));
    assert(a =~= flat(parts).subrange(0, a.len() as int));
}

proof fn lemma_gathered_prefix(queue: Seq<RawOut>, there: Seq<Seq<u8>>)
    requires
        queue_wf(queue),
        there.len() <= MAX_IO_SLICES,
    ensures
        flat(gathered(queue, there)).is_prefix_of(flat(there) + all_left(queue)),
    decreases queue.len(),
{
    let goal = flat(there) + all_left(queue);
    if queue.len() == 0 || there.len() >= MAX_IO_SLICES || (queue[0].fds_due() && there.len()
        > 0) {
        let a = flat(there);
        assert(a =~= goal.subrange(0, a.len() as int));
    } else {
        let out = queue[0];
        assert(out.wf());
        let more = out.pieces_left();
        let next = with_pieces(there, more);
        let rest = queue.skip(1);
        assert forall|i: int| 0 <= i < rest.len() implies (#[trigger] rest[i]).wf() by {
            assert(rest[i] == queue[i + 1]);
        }
        lemma_pieces_left(out);
        lemma_gathered_prefix(rest, next);
        if there.len() + more.len() <= MAX_IO_SLICES {
            lemma_flat_concat(there, more);
            assert(flat(next) + all_left(rest) =~= goal);
        } else {
            // The second piece did not fit, so nothing more does.
            let count = MAX_IO_SLICES - there.len();
            lemma_flat_prefix(more, count);
            lemma_flat_concat(there, more.take(count));
            assert(gathered(rest, next) == next);
            let a = flat(next);
            let b = flat(more.take(count));
            assert(b =~= flat(more).subrange(0, b.len() as int));
            assert(a =~= goal.subrange(0, a.len() as int));
        }
    }
}

/// What is written next are the first bytes that the queue has left: the messages go out in the
/// order in which they were queued.
pub proof fn law_written_in_order(queue: Seq<RawOut>)
    requires
        queue_wf(queue),
    ensures
        flat(gathered(queue, seq![])).is_prefix_of(all_left(queue)),
{
    lemma_gathered_prefix(queue, seq![]);
    assert(flat(seq![]) + all_left(queue) =~= all_left(queue));
}

/// What was written is gone, and the rest stays, in the same order.
pub proof fn law_rest_stays(queue: Seq<RawOut>, count: int)
    requires
        queue_wf(queue),
        0 <= count <= all_left(queue).len(),
    ensures
        all_left(advanced(queue, count)) == all_left(queue).skip(count),
    decreases queue.len(),
{
    if queue.len() > 0 {
        let out = queue[0];
        let rest = queue.skip(1);
        assert(out.wf());
        assert forall|i: int| 0 <= i < rest.len() implies (#[trigger] rest[i]).wf() by {
            assert(rest[i] == queue[i + 1]);
        }
        let left = out.left().len() as int;
        if count < left {
            let after = advanced(queue, count);
            assert(after.skip(1) =~= rest);
            assert(out.advanced(count).left() =~= out.left().skip(count));
            assert(all_left(after) =~= all_left(queue).skip(count));
        } else {
            law_rest_stays(rest, count - left);
            assert(all_left(rest).skip(count - left) =~= all_left(queue).skip(count));
        }
    } else {
        assert(all_left(queue).skip(count) =~= seq![]);
    }
}

/// No byte of a message whose file descriptors have not gone out is written together with bytes
/// of a message before it.
pub proof fn law_fds_go_first(queue: Seq<RawOut>, index: int)
    requires
        queue_wf(queue),
        0 < index < queue.len(),
        queue[index].fds_due(),
    ensures
        gathered(queue, seq![]) == gathered(queue.take(index), seq![]),
        flat(gathered(queue, seq![])).is_prefix_of(all_left(queue.take(index))),
{
    let first = with_pieces(seq![], queue[0].pieces_left());
    assert(first.len() > 0);
    assert(queue.skip(1)[index - 1] == queue[index]);
    lemma_gathered_stops(queue.skip(1), first, index - 1);
    assert(queue.take(index)[0] == queue[0]);
    assert(queue.take(index).skip(1) =~= queue.skip(1).take(index - 1));
    assert forall|i: int| 0 <= i < queue.take(index).len() implies (#[trigger] queue.take(
        index,
    )[i]).wf() by {
        assert(queue.take(index)[i] == queue[i]);
    }
    law_written_in_order(queue.take(index));
}

proof fn lemma_gathered_stops(queue: Seq<RawOut>, there: Seq<Seq<u8>>, index: int)
    requires
        0 <= index < queue.len(),
        queue[index].fds_due(),
        there.len() > 0,
    ensures
        gathered(queue, there) == gathered(queue.take(index), there),
    decreases queue.len(),
{
    if index > 0 {
        assert(queue.take(index)[0] == queue[0]);
        if !(there.len() >= MAX_IO_SLICES || queue[0].fds_due()) {
            let next = with_pieces(there, queue[0].pieces_left());
            assert(queue.skip(1)[index - 1] == queue[index]);
            assert(queue.take(index).skip(1) =~= queue.skip(1).take(index - 1));
            lemma_gathered_stops(queue.skip(1), next, index - 1);
        }
    }
}

/// A message keeps its index while messages before it leave the queue: it is written once the
/// first index that waits is above its own.
pub proof fn law_index_counts_up(queue: Seq<RawOut>, count: int)
    requires
        queue_wf(queue),
        count >= 0,
    ensures
        ({
            let after = advanced(queue, count);
            let gone = queue.len() - after.len();
            &&& 0 <= gone <= queue.len()
            &&& forall|i: int| 0 < i < after.len() ==> after[i] == queue[i + gone]
            &&& after.len() > 0 ==> exists|n: int|
                0 <= n && after[0] == #[trigger] queue[gone].advanced(n)
        }),
    decreases queue.len(),
{
    if queue.len() > 0 {
        let left = queue[0].left().len() as int;
        let rest = queue.skip(1);
        if count < left {
            let after = advanced(queue, count);
            assert(after[0] == queue[0].advanced(count));
        } else {
            assert forall|i: int| 0 <= i < rest.len() implies (#[trigger] rest[i]).wf() by {
                assert(rest[i] == queue[i + 1]);
            }
            law_index_counts_up(rest, count - left);
            let after = advanced(queue, count);
            let gone = rest.len() - after.len();
            assert(after == advanced(rest, count - left));
            if after.len() > 0 {
                let n = choose|n: int| 0 <= n && after[0] == #[trigger] rest[gone].advanced(n);
                assert(rest[gone] == queue[gone + 1]);
                assert(after[0] == queue[gone + 1].advanced(n));
            }
            assert forall|i: int| 0 < i < after.len() implies after[i] == queue[i + gone + 1] by {
                assert(after[i] == rest[i + gone]);
            }
        }
    }
}

/// A message is prepared unless it has no kind, a header field is not what it has to be, it has
/// more than 32 file descriptors, or any on a stream that carries none, or its bytes cannot be
/// counted. The first of these is the error.
pub proof fn law_what_cannot_be_sent(msg: MessageView, serial: u32, with_fd: bool)
    requires
        msg.body.fds.len() <= u32::MAX,
    ensures
        ({
            let fits = msg.body.fds.len() == 0 || (with_fd && msg.body.fds.len() <= 32);
            let countable = message_builder::message_header(msg, serial).len()
                + msg.body.buf.len() <= usize::MAX;
            let valid = message_builder::valid_fields(msg.dynheader);
            let error = send_error(msg, serial, with_fd);
            &&& error is None <==> !(msg.typ is Invalid) && valid && fits && countable
            &&& msg.typ is Invalid <==> error == Some(SendError::Marshal(MarshalError::InvalidType))
            &&& !(msg.typ is Invalid) && !valid ==> (error matches Some(
                SendError::Marshal(MarshalError::Validation(_)),
            ))
            &&& error is Some && error->Some_0 is TooManyFds <==> !(msg.typ is Invalid) && valid
                && !fits
            &&& error is Some && error->Some_0 is TooLong <==> !(msg.typ is Invalid) && valid && fits
                && !countable
        }),
{
    message_builder::law_valid_fields_are_written(msg);
}

/// The bytes of a prepared message are its header and its body, and whoever reads them, whatever
/// follows, gets the message as it was.
pub proof fn law_prepared_message_is_received(
    out: RawOut,
    msg: MessageView,
    serial: u32,
    fds: Seq<UnixFd>,
    rest: Seq<u8>,
)
    requires
        unwritten(out, msg, serial),
        message_builder::valid_fields(msg.dynheader),
        round_trip::sendable(msg, serial),
        !(msg.typ is Invalid),
        msg.dynheader.response_serial != Some(0u32),
        serial != 0,
        fds.len() == out.fds@.len(),
    ensures
        out.written == 0,
        out.left() == out.header@ + out.body@,
        out.fds@.len() == msg.body.fds.len(),
        recv::frame(out.header@ + out.body@ + rest, true) matches recv::Frame::Complete {
            hdr,
            dynhdr,
            body,
            end,
        } && recv::is_as_sent(
            recv::received_message(hdr, dynhdr, body, fds),
            msg,
            serial,
            fds,
        ) && (out.header@ + out.body@ + rest).skip(end) == rest,
{
    recv::law_message_is_received_as_sent(msg, serial, true, fds, rest);
    assert(out.header@ + out.body@ =~= recv::message_bytes(msg, serial));
    assert(out.left() =~= out.header@ + out.body@);
}

/// The file descriptors of the first message go out with its first byte, and no others do.
pub proof fn law_first_byte_carries_the_fds(queue: Seq<RawOut>)
    ensures
        queue.len() > 0 && queue[0].written == 0 ==> fds_to_send(queue) == queue[0].fds@,
        queue.len() > 0 && queue[0].written > 0 ==> fds_to_send(queue).len() == 0,
        queue.len() == 0 ==> fds_to_send(queue).len() == 0,
{
    if queue.len() > 0 && queue[0].fds@.len() == 0 {
        assert(queue[0].fds@ =~= seq![]);
    }
}

/// What is written at a time is all that waits, unless 32 pieces were collected before that or a
/// message follows whose file descriptors have not gone out.
pub proof fn law_gathers_as_much_as_fits(queue: Seq<RawOut>)
    requires
        queue_wf(queue),
    ensures
        gathered(queue, seq![]).len() <= 32,
        gathered(queue, seq![]).len() == 32 || flat(gathered(queue, seq![])) == all_left(queue)
            || exists|index: int|
            #![trigger queue[index]]
            0 < index < queue.len() && queue[index].written == 0 && queue[index].fds@.len() > 0
                && flat(gathered(queue, seq![])) == all_left(queue.take(index)),
{
    lemma_gathers(queue, seq![]);
    assert(flat(seq![]) =~= seq![]);
    assert(flat(seq![]) + all_left(queue) =~= all_left(queue));
    if gathered(queue, seq![]).len() < 32 && flat(gathered(queue, seq![])) != all_left(queue) {
        let index = choose|index: int|
            #![trigger queue[index]]
            0 <= index < queue.len() && queue[index].fds_due() && flat(gathered(queue, seq![]))
                == flat(seq![]) + all_left(queue.take(index)) && (index > 0 || Seq::<
                Seq<u8>,
            >::empty().len() > 0);
        assert(flat(seq![]) + all_left(queue.take(index)) =~= all_left(queue.take(index)));
    }
}

proof fn lemma_gathers(queue: Seq<RawOut>, there: Seq<Seq<u8>>)
    requires
        queue_wf(queue),
        there.len() <= MAX_IO_SLICES,
    ensures
        gathered(queue, there).len() <= MAX_IO_SLICES,
        gathered(queue, there).len() == MAX_IO_SLICES || flat(gathered(queue, there)) == flat(there)
            + all_left(queue) || exists|index: int|
            #![trigger queue[index]]
            0 <= index < queue.len() && queue[index].fds_due() && flat(gathered(queue, there))
                == flat(there) + all_left(queue.take(index)) && (index > 0 || there.len() > 0),
    decreases queue.len(),
{
    if queue.len() == 0 {
        assert(flat(there) + all_left(queue) =~= flat(there));
    } else if there.len() >= MAX_IO_SLICES {
    } else if queue[0].fds_due() && there.len() > 0 {
        assert(queue.take(0) =~= seq![]);
        assert(all_left(queue.take(0)) =~= seq![]);
        assert(flat(there) + all_left(queue.take(0)) =~= flat(there));
    } else {
        let out = queue[0];
        assert(out.wf());
        let more = out.pieces_left();
        let next = with_pieces(there, more);
        let rest = queue.skip(1);
        assert forall|i: int| 0 <= i < rest.len() implies (#[trigger] rest[i]).wf() by {
            assert(rest[i] == queue[i + 1]);
        }
        lemma_pieces_left(out);
        lemma_gathers(rest, next);
        lemma_gathered_grows(rest, next);
        if there.len() + more.len() <= MAX_IO_SLICES {
            lemma_flat_concat(there, more);
            assert(flat(next) + all_left(rest) =~= flat(there) + all_left(queue));
            if gathered(queue, there).len() < MAX_IO_SLICES && flat(gathered(queue, there)) != flat(
                there,
            ) + all_left(queue) {
                let index = choose|index: int|
                    #![trigger rest[index]]
                    0 <= index < rest.len() && rest[index].fds_due() && flat(gathered(rest, next))
                        == flat(next) + all_left(rest.take(index)) && (index > 0 || next.len() > 0);
                assert(queue[index + 1] == rest[index]);
                let some = queue.take(index + 1);
                assert(some.skip(1) =~= rest.take(index));
                assert(some[0] == out);
                assert(flat(next) + all_left(rest.take(index)) =~= flat(there) + all_left(some));
            }
        }
    }
}

/// The messages that leave the queue are those of which all bytes were written, and of the next
/// one less than all were. Their file descriptors are the ones to be closed.
pub proof fn law_complete_messages_leave(queue: Seq<RawOut>, count: int)
    requires
        queue_wf(queue),
        count >= 0,
    ensures
        ({
            let gone = queue.len() - advanced(queue, count).len();
            &&& 0 <= gone <= queue.len()
            &&& all_left(queue.take(gone)).len() <= count
            &&& gone < queue.len() ==> {
                &&& count < all_left(queue.take(gone + 1)).len()
                &&& advanced(queue, count)[0].written == queue[gone].written + count - all_left(
                    queue.take(gone),
                ).len()
                &&& advanced(queue, count)[0].header == queue[gone].header
                &&& advanced(queue, count)[0].body == queue[gone].body
                &&& advanced(queue, count)[0].fds == queue[gone].fds
            }
        }),
    decreases queue.len(),
{
    let after = advanced(queue, count);
    if queue.len() > 0 {
        let out = queue[0];
        let rest = queue.skip(1);
        assert(out.wf());
        assert forall|i: int| 0 <= i < rest.len() implies (#[trigger] rest[i]).wf() by {
            assert(rest[i] == queue[i + 1]);
        }
        let left = out.left().len() as int;
        if count < left {
            assert(queue.take(0) =~= seq![]);
            assert(queue.take(1)[0] == out);
            assert(queue.take(1).skip(1) =~= seq![]);
            assert(all_left(queue.take(1).skip(1)) =~= seq![]);
            assert(all_left(queue.take(1)) =~= out.left());
        } else {
            law_complete_messages_leave(rest, count - left);
            let gone = rest.len() - after.len();
            assert(queue.take(gone + 1).skip(1) =~= rest.take(gone));
            assert(queue.take(gone + 1)[0] == out);
            if gone < rest.len() {
                assert(queue.take(gone + 2).skip(1) =~= rest.take(gone + 1));
                assert(queue.take(gone + 2)[0] == out);
                assert(rest[gone] == queue[gone + 1]);
            }
        }
    } else {
        assert(queue.take(0) =~= seq![]);
    }
}

/// The file descriptors of messages are those of each of them, one message behind the other.
pub proof fn law_fds_of_messages(a: Seq<RawOut>, b: Seq<RawOut>)
    ensures
        all_fds(a + b) == all_fds(a) + all_fds(b),
        a.len() == 1 ==> all_fds(a) == a[0].fds@,
        a.len() == 0 ==> all_fds(a).len() == 0,
    decreases a.len(),
{
    if a.len() == 0 {
        assert(a + b =~= b);
        assert(all_fds(a) + all_fds(b) =~= all_fds(b));
    } else {
        assert((a + b).skip(1) =~= a.skip(1) + b);
        law_fds_of_messages(a.skip(1), b);
        assert(all_fds(a + b) =~= all_fds(a) + all_fds(b));
        if a.len() == 1 {
            assert(all_fds(a) =~= a[0].fds@);
        }
    }
}

/// At most 1024 messages wait to be written, and at most 32 pieces are written at a time.
pub proof fn law_sending_limits()
    ensures
        MAX_OUT_QUEUE == 1024,
        MAX_IO_SLICES == 32,
        DBUS_MAX_FD_MESSAGE == 32,
{
}

/// The control messages of a message with file descriptors hold these descriptors, and there are
/// none without.
pub proof fn law_control_bytes_carry_the_fds<'a>(
    fds: Seq<i32>,
    layout: ancillary::CmsgLayout,
    result: Result<ancillary::AncillaryData<'a>, ancillary::AncillaryError>,
)
    requires
        layout.wf(),
        fds.len() <= 32,
    ensures
        fds.len() == 0 ==> control_bytes(fds, layout).len() == 0,
        fds.len() > 0 ==> {
            let entries = ancillary::entries_from(control_bytes(fds, layout), 0, layout);
            &&& entries.len() == 1
            &&& ancillary::understood(entries[0], layout, result) ==> (result matches Ok(
                ancillary::AncillaryData::ScmRights(rights),
            ) && rights@ == fds)
        },
{
    lemma_room_for_fds(fds.len() as int, layout);
    ancillary::law_rights_round_trip(fds, layout, result);
}

/// What is left of a message are its bytes, header first, without those that were written.
pub proof fn law_left_is_what_was_not_written(out: RawOut)
    requires
        out.written <= out.header@.len() + out.body@.len(),
    ensures
        out.left() == (out.header@ + out.body@).skip(out.written as int),
        out.left().len() == out.header@.len() + out.body@.len() - out.written,
{
}

/// The bytes that wait are those of each message, one behind the other.
pub proof fn law_bytes_of_messages(a: Seq<RawOut>, b: Seq<RawOut>)
    ensures
        all_left(a + b) == all_left(a) + all_left(b),
        a.len() == 1 ==> all_left(a) == a[0].left(),
        a.len() == 0 ==> all_left(a).len() == 0,
    decreases a.len(),
{
    if a.len() == 0 {
        assert(a + b =~= b);
        assert(all_left(a) + all_left(b) =~= all_left(b));
    } else {
        assert((a + b).skip(1) =~= a.skip(1) + b);
        law_bytes_of_messages(a.skip(1), b);
        assert(all_left(a + b) =~= all_left(a) + all_left(b));
        if a.len() == 1 {
            assert(all_left(a.skip(1)) =~= seq![]);
            assert(all_left(a) =~= a[0].left());
        }
    }
}

/// Nothing of a message that has file descriptors to send is written together with bytes of
/// messages before it.
pub proof fn law_fds_never_follow_other_bytes(queue: Seq<RawOut>, index: int)
    requires
        queue_wf(queue),
        0 < index < queue.len(),
        queue[index].written == 0,
        queue[index].fds@.len() > 0,
    ensures
        flat(gathered(queue, seq![])).len() <= all_left(queue.take(index)).len(),
        flat(gathered(queue, seq![])).is_prefix_of(all_left(queue.take(index))),
{
    law_fds_go_first(queue, index);
}

} // verus!
