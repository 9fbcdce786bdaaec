//! The handshake by which a connection starts.
//!
//! The client names itself, asks for file descriptors if it wants them, and begins. After each
//! request it reads one line, which has to start with the right word. [`Handshake`] says what to
//! write and when to read.
use vstd::prelude::*;

use crate::text;

verus! {

/// The longest line that is read.
pub const MAX_LINE: usize = 512;

/// Why the handshake failed.
#[derive(Clone, Copy, Debug, PartialEq, Eq, Structural)]
pub enum HandshakeError {
    AuthFailed,
    NoUnixFds,
    /// The stream ended before the line did.
    HungUp,
}

/// What the answer to a request is taken for.
#[derive(Clone, Copy, Debug, PartialEq, Eq, Structural)]
pub enum Answer {
    /// More of the line is needed.
    Unknown,
    Accepted,
    Rejected,
}

/// There is a line ending at position `i`.
pub open spec fn line_ends_at(line: Seq<u8>, i: int) -> bool {
    0 <= i && i + 1 < line.len() && line[i] == 0x0d && line[i + 1] == 0x0a
}

/// The line has ended.
pub open spec fn line_ended(line: Seq<u8>) -> bool {
    exists|i: int| line_ends_at(line, i)
}

/// What the bytes that were read are taken for: as soon as they are enough to tell, they have to
/// start with `word`, and the line has to end before it gets too long.
pub open spec fn answer(line: Seq<u8>, word: Seq<u8>) -> Answer {
    if line.len() < word.len() {
        Answer::Unknown
    } else if !word.is_prefix_of(line) {
        Answer::Rejected
    } else if line_ended(line) {
        Answer::Accepted
    } else if line.len() >= MAX_LINE {
        Answer::Rejected
    } else {
        Answer::Unknown
    }
}

/// The position of the first line ending.
fn find_line_ending(buf: &[u8]) -> (position: Option<usize>)
    ensures
        match position {
            Some(i) => {
                &&& line_ends_at(buf@, i as int)
                &&& forall|j: int| 0 <= j < i ==> !line_ends_at(buf@, j)
            },
            None => !line_ended(buf@),
        },
{
    let mut i: usize = 0;
    while i < buf.len()
        invariant
            i <= buf@.len(),
            forall|j: int| 0 <= j < i ==> !line_ends_at(buf@, j),
        decreases buf@.len() - i,
    {
        if buf.len() - i > 1 && buf[i] == 0x0d && buf[i + 1] == 0x0a {
            assert(line_ends_at(buf@, i as int));
            return Some(i);
        }
        i += 1;
    }
    None
}

/// What the bytes that were read are taken for.
pub fn starts_with(line: &[u8], word: &[u8]) -> (result: Answer)
    ensures
        result == answer(line@, word@),
{
    if line.len() < word.len() {
        return Answer::Unknown;
    }
    let start = vstd::slice::slice_subrange(line, 0, word.len());
    if !text::bytes_eq(start, word) {
        assert(!word@.is_prefix_of(line@));
        return Answer::Rejected;
    }
    assert(word@.is_prefix_of(line@));
    match find_line_ending(line) {
        Some(_) => Answer::Accepted,
        None => if line.len() >= MAX_LINE {
            Answer::Rejected
        } else {
            Answer::Unknown
        },
    }
}

/// The digit with the given value.
pub open spec fn hex_digit(value: int) -> u8 {
    if value < 10 {
        (0x30 + value) as u8
    } else {
        (0x37 + value) as u8
    }
}

/// A number in upper case hexadecimal digits, without leading zeros.
pub open spec fn hex(number: nat) -> Seq<u8>
    decreases number,
{
    if number < 16 {
        seq![hex_digit(number as int)]
    } else {
        hex(number / 16).push(hex_digit((number % 16) as int))
    }
}

fn push_hex(number: u32, out: &mut Vec<u8>)
    ensures
        final(out)@ == old(out)@ + hex(number as nat),
    decreases number,
{
    if number >= 16 {
        push_hex(number / 16, out);
    }
    let value: u8 = (number % 16) as u8;
    out.push(
        if value < 10 {
            0x30 + value
        } else {
            0x37 + value
        },
    );
    assert(out@ =~= old(out)@ + hex(number as nat));
}

/// `\0AUTH EXTERNAL `
pub open spec fn auth_start() -> Seq<u8> {
    seq![
        0u8,
        0x41,
        0x55,
        0x54,
        0x48,
        0x20,
        0x45,
        0x58,
        0x54,
        0x45,
        0x52,
        0x4e,
        0x41,
        0x4c,
        0x20,
    ]
}

/// The end of a line.
pub open spec fn line_end() -> Seq<u8> {
    seq![0x0du8, 0x0a]
}

/// The first line of the client, which names the process.
pub open spec fn auth_line(id: u32) -> Seq<u8> {
    auth_start() + hex(id as nat) + line_end()
}

/// `NEGOTIATE_UNIX_FD` and the end of the line.
pub open spec fn negotiate_line() -> Seq<u8> {
    seq![
        0x4eu8,
        0x45,
        0x47,
        0x4f,
        0x54,
        0x49,
        0x41,
        0x54,
        0x45,
        0x5f,
        0x55,
        0x4e,
        0x49,
        0x58,
        0x5f,
        0x46,
        0x44,
        0x0d,
        0x0a,
    ]
}

/// `BEGIN` and the end of the line.
pub open spec fn begin_line() -> Seq<u8> {
    seq![0x42u8, 0x45, 0x47, 0x49, 0x4e, 0x0d, 0x0a]
}

/// `OK`
pub open spec fn ok_word() -> Seq<u8> {
    seq![0x4fu8, 0x4b]
}

/// `AGREE_UNIX_FD`
pub open spec fn agree_word() -> Seq<u8> {
    seq![0x41u8, 0x47, 0x52, 0x45, 0x45, 0x5f, 0x55, 0x4e, 0x49, 0x58, 0x5f, 0x46, 0x44]
}

/// How far the handshake is.
#[derive(Clone, Copy, Debug, PartialEq, Eq, Structural)]
pub enum Stage {
    /// Nothing was written.
    Start,
    /// The client has named itself.
    Auth,
    /// The client has asked for file descriptors.
    Negotiate,
    /// The client has begun.
    Done,
    Failed,
}

/// What to do next.
#[derive(Debug, PartialEq, Eq)]
pub enum HandshakeAction {
    /// Write these bytes.
    Write(Vec<u8>),
    /// Read at most so many bytes.
    Read(usize),
    /// The handshake is over, and messages follow.
    Finish,
    Fail(HandshakeError),
}

/// The state of a handshake.
#[derive(Debug)]
pub struct Handshake {
    with_fd: bool,
    id: u32,
    stage: Stage,
    line: Vec<u8>,
}

/// The state of a handshake, and the line that has been read so far.
#[verifier::ext_equal]
pub struct HandshakeView {
    pub with_fd: bool,
    pub id: u32,
    pub stage: Stage,
    pub line: Seq<u8>,
}

impl View for Handshake {
    type V = HandshakeView;

    closed spec fn view(&self) -> HandshakeView {
        HandshakeView {
            with_fd: self.with_fd,
            id: self.id,
            stage: self.stage,
            line: self.line@,
        }
    }
}

/// Whether the action is to write these bytes.
pub open spec fn writes(action: HandshakeAction, bytes: Seq<u8>) -> bool {
    action matches HandshakeAction::Write(b) && b@ == bytes
}

/// Whether the action, and the stage after it, are what the state asks for.
pub open spec fn next_step(
    before: HandshakeView,
    after: HandshakeView,
    action: HandshakeAction,
) -> bool {
    let at = |stage: Stage| HandshakeView { stage, line: seq![], ..before };
    match before.stage {
        Stage::Start => after == at(Stage::Auth) && writes(action, auth_line(before.id)),
        Stage::Auth => match answer(before.line, ok_word()) {
            Answer::Unknown => after == before && action == HandshakeAction::Read(
                (MAX_LINE - before.line.len()) as usize,
            ),
            Answer::Accepted => if before.with_fd {
                after == at(Stage::Negotiate) && writes(action, negotiate_line())
            } else {
                after == at(Stage::Done) && writes(action, begin_line())
            },
            Answer::Rejected => after == at(Stage::Failed) && action == HandshakeAction::Fail(
                HandshakeError::AuthFailed,
            ),
        },
        Stage::Negotiate => match answer(before.line, agree_word()) {
            Answer::Unknown => after == before && action == HandshakeAction::Read(
                (MAX_LINE - before.line.len()) as usize,
            ),
            Answer::Accepted => after == at(Stage::Done) && writes(action, begin_line()),
            Answer::Rejected => after == at(Stage::Failed) && action == HandshakeAction::Fail(
                HandshakeError::NoUnixFds,
            ),
        },
        Stage::Done => after == before && action == HandshakeAction::Finish,
        Stage::Failed => after == before && action == HandshakeAction::Fail(
            HandshakeError::HungUp,
        ),
    }
}

impl Handshake {
    /// A handshake of the process `id`, which asks for file descriptors where `with_fd` says so.
    pub fn new(with_fd: bool, id: u32) -> (handshake: Handshake)
        ensures
            handshake@ == (HandshakeView { with_fd, id, stage: Stage::Start, line: seq![] }),
    {
        let handshake = Handshake { with_fd, id, stage: Stage::Start, line: Vec::new() };
        assert(handshake@ =~= (HandshakeView { with_fd, id, stage: Stage::Start, line: seq![] }));
        handshake
    }

    /// What to do next.
    pub fn next(&mut self) -> (action: HandshakeAction)
        requires
            old(self)@.line.len() <= MAX_LINE,
        ensures
            next_step(old(self)@, final(self)@, action),
            final(self)@.line.len() <= MAX_LINE,
    {
        let ok: [u8; 2] = [0x4f, 0x4b];
        let agree: [u8; 13] = [
            0x41,
            0x47,
            0x52,
            0x45,
            0x45,
            0x5f,
            0x55,
            0x4e,
            0x49,
            0x58,
            0x5f,
            0x46,
            0x44,
        ];
        assert(ok@ =~= ok_word());
        assert(agree@ =~= agree_word());
        match self.stage {
            Stage::Start => {
                self.enter(Stage::Auth);
                let mut line: Vec<u8> = vec![
                    0,
                    0x41,
                    0x55,
                    0x54,
                    0x48,
                    0x20,
                    0x45,
                    0x58,
                    0x54,
                    0x45,
                    0x52,
                    0x4e,
                    0x41,
                    0x4c,
                    0x20,
                ];
                assert(line@ =~= auth_start());
                push_hex(self.id, &mut line);
                line.push(0x0d);
                line.push(0x0a);
                assert(line@ =~= auth_line(self.id));
                HandshakeAction::Write(line)
            },
            Stage::Auth => match starts_with(self.line.as_slice(), ok.as_slice()) {
                Answer::Unknown => HandshakeAction::Read(MAX_LINE - self.line.len()),
                Answer::Accepted => {
                    if self.with_fd {
                        self.enter(Stage::Negotiate);
                        Self::negotiate()
                    } else {
                        self.enter(Stage::Done);
                        Self::begin()
                    }
                },
                Answer::Rejected => {
                    self.enter(Stage::Failed);
                    HandshakeAction::Fail(HandshakeError::AuthFailed)
                },
            },
            Stage::Negotiate => match starts_with(self.line.as_slice(), agree.as_slice()) {
                Answer::Unknown => HandshakeAction::Read(MAX_LINE - self.line.len()),
                Answer::Accepted => {
                    self.enter(Stage::Done);
                    Self::begin()
                },
                Answer::Rejected => {
                    self.enter(Stage::Failed);
                    HandshakeAction::Fail(HandshakeError::NoUnixFds)
                },
            },
            Stage::Done => HandshakeAction::Finish,
            Stage::Failed => HandshakeAction::Fail(HandshakeError::HungUp),
        }
    }

    fn enter(&mut self, stage: Stage)
        ensures
            final(self)@ == (HandshakeView { stage, line: seq![], ..old(self)@ }),
    {
        self.stage = stage;
        self.line.clear();
        assert(self@ =~= (HandshakeView { stage, line: seq![], ..old(self)@ }));
    }

    fn negotiate() -> (action: HandshakeAction)
        ensures
            writes(action, negotiate_line()),
    {
        let line: Vec<u8> = vec![
            0x4e,
            0x45,
            0x47,
            0x4f,
            0x54,
            0x49,
            0x41,
            0x54,
            0x45,
            0x5f,
            0x55,
            0x4e,
            0x49,
            0x58,
            0x5f,
            0x46,
            0x44,
            0x0d,
            0x0a,
        ];
        assert(line@ =~= negotiate_line());
        HandshakeAction::Write(line)
    }

    fn begin() -> (action: HandshakeAction)
        ensures
            writes(action, begin_line()),
    {
        let line: Vec<u8> = vec![0x42, 0x45, 0x47, 0x49, 0x4e, 0x0d, 0x0a];
        assert(line@ =~= begin_line());
        HandshakeAction::Write(line)
    }

    /// Takes bytes that were read. Where there are none, the stream has ended, and the handshake
    /// has failed.
    pub fn received(&mut self, data: &[u8])
        requires
            old(self)@.line.len() + data@.len() <= MAX_LINE,
        ensures
            final(self)@ == if data@.len() == 0 {
                HandshakeView { stage: Stage::Failed, line: seq![], ..old(self)@ }
            } else {
                HandshakeView { line: old(self)@.line + data@, ..old(self)@ }
            },
    {
        if data.len() == 0 {
            self.enter(Stage::Failed);
        } else {
            self.line.extend_from_slice(data);
            assert(self@.line =~= old(self)@.line + data@);
        }
    }
}

/// An answer that can be told does not change when more of the line is read.
pub proof fn law_answer_stable(line: Seq<u8>, more: Seq<u8>, word: Seq<u8>)
    requires
        answer(line, word) is Accepted || (line.len() >= word.len() && !word.is_prefix_of(line)),
    ensures
        answer(line + more, word) == answer(line, word),
{
    let all = line + more;
    if word.is_prefix_of(line) {
        assert(word =~= all.subrange(0, word.len() as int));
        let i = choose|i: int| line_ends_at(line, i);
        assert(line_ends_at(all, i));
    } else {
        if word.is_prefix_of(all) {
            assert(word =~= line.subrange(0, word.len() as int));
        }
    }
}

/// Messages follow only behind a line that was accepted, and with file descriptors only where
/// the peer agreed to them.
pub proof fn law_begins_only_when_accepted(
    before: HandshakeView,
    after: HandshakeView,
    action: HandshakeAction,
)
    requires
        next_step(before, after, action),
        after.stage is Done,
        !(before.stage is Done),
    ensures
        writes(action, begin_line()),
        if before.with_fd {
            before.stage is Negotiate && answer(before.line, agree_word()) is Accepted
        } else {
            (before.stage is Auth && answer(before.line, ok_word()) is Accepted) || (
            before.stage is Negotiate && answer(before.line, agree_word()) is Accepted)
        },
{
}

/// The bytes are those of the text, which is ASCII.
pub open spec fn is_text(bytes: Seq<u8>, s: Seq<char>) -> bool {
    &&& bytes.len() == s.len()
    &&& forall|i: int| 0 <= i < s.len() ==> #[trigger] bytes[i] as int == s[i] as int
}

/// What a byte stands for in a number in base sixteen.
pub open spec fn digit_value(byte: u8) -> Option<int> {
    if '0' as int <= byte as int && byte as int <= '9' as int {
        Some(byte as int - '0' as int)
    } else if 'A' as int <= byte as int && byte as int <= 'F' as int {
        Some(10 + byte as int - 'A' as int)
    } else {
        None
    }
}

/// The number that the bytes stand for in base sixteen, the highest digit first.
pub open spec fn number_of(digits: Seq<u8>) -> int
    decreases digits.len(),
{
    if digits.len() == 0 {
        0
    } else {
        16 * number_of(digits.drop_last()) + digit_value(digits.last())->Some_0
    }
}

/// The bytes are digits of base sixteen, without a leading zero, and stand for the number.
pub open spec fn is_number(digits: Seq<u8>, number: int) -> bool {
    &&& digits.len() > 0
    &&& forall|i: int| 0 <= i < digits.len() ==> digit_value(#[trigger] digits[i]) is Some
    &&& number_of(digits) == number
    &&& digits.len() > 1 ==> digits[0] as int != '0' as int
}

proof fn lemma_hex_is_number(number: nat)
    ensures
        is_number(hex(number), number as int),
        number > 0 ==> hex(number)[0] as int != '0' as int,
    decreases number,
{
    let digits = hex(number);
    if number < 16 {
        assert(digits.drop_last() =~= seq![]);
        assert(number_of(digits.drop_last()) == 0);
        assert(digits[0] == hex_digit(number as int));
    } else {
        lemma_hex_is_number(number / 16);
        assert(digits.drop_last() =~= hex(number / 16));
        assert(digits.last() == hex_digit((number % 16) as int));
        assert forall|i: int| 0 <= i < digits.len() implies digit_value(
            #[trigger] digits[i],
        ) is Some by {
            if i < digits.len() - 1 {
                assert(digits[i] == hex(number / 16)[i]);
            }
        }
    }
}

/// The first line of a handshake authenticates the process by its id, which stands in it as a
/// number in base sixteen.
pub proof fn law_first_line_names_the_process(
    before: HandshakeView,
    after: HandshakeView,
    action: HandshakeAction,
)
    requires
        before.stage is Start,
        next_step(before, after, action),
    ensures
        action matches HandshakeAction::Write(line) && exists|digits: Seq<u8>|
            #![trigger is_number(digits, before.id as int)]
            {
                &&& is_number(digits, before.id as int)
                &&& line@.len() == 15 + digits.len() + 2
                &&& is_text(line@.take(15), "\0AUTH EXTERNAL "@)
                &&& line@.subrange(15, 15 + digits.len() as int) == digits
                &&& is_text(line@.skip(15 + digits.len() as int), "\r\n"@)
            },
        after.stage is Auth,
        after.line.len() == 0,
        after.with_fd == before.with_fd,
        after.id == before.id,
{
    let digits = hex(before.id as nat);
    lemma_hex_is_number(before.id as nat);
    reveal_strlit("\0AUTH EXTERNAL ");
    reveal_strlit("\r\n");
    let line = auth_line(before.id);
    assert(is_number(digits, before.id as int));
    assert(line.take(15) =~= auth_start());
    assert(line.subrange(15, 15 + digits.len() as int) =~= digits);
    assert(line.skip(15 + digits.len() as int) =~= line_end());
}

/// Different processes name themselves differently.
pub proof fn law_ids_differ(a: u32, b: u32)
    requires
        auth_line(a) == auth_line(b),
    ensures
        a == b,
{
    lemma_hex_is_number(a as nat);
    lemma_hex_is_number(b as nat);
    let (x, y) = (auth_line(a), auth_line(b));
    assert(hex(a as nat) =~= x.subrange(15, x.len() - 2));
    assert(hex(b as nat) =~= y.subrange(15, y.len() - 2));
}

/// The line starts with the word.
pub open spec fn begins_with(line: Seq<u8>, word: Seq<char>) -> bool {
    line.len() >= word.len() && is_text(line.take(word.len() as int), word)
}

/// The line holds a carriage return and, right behind it, a line feed.
pub open spec fn has_ended(line: Seq<u8>) -> bool {
    exists|i: int|
        0 <= i < line.len() - 1 && #[trigger] line[i] as int == '\r' as int && line[i + 1] as int
            == '\n' as int
}

/// The answer to a request is waited for.
pub open spec fn keeps_reading(line: Seq<u8>, word: Seq<char>) -> bool {
    line.len() < word.len() || (begins_with(line, word) && !has_ended(line) && line.len() < 512)
}

proof fn lemma_answer_means(line: Seq<u8>, word: Seq<u8>, s: Seq<char>)
    requires
        is_text(word, s),
        word.len() <= 512,
    ensures
        answer(line, word) is Accepted <==> begins_with(line, s) && has_ended(line),
        answer(line, word) is Unknown <==> keeps_reading(line, s),
{
    assert(has_ended(line) <==> line_ended(line)) by {
        if line_ended(line) {
            let i = choose|i: int| line_ends_at(line, i);
            assert(line[i] as int == '\r' as int && line[i + 1] as int == '\n' as int);
        }
        if has_ended(line) {
            let i = choose|i: int|
                0 <= i < line.len() - 1 && #[trigger] line[i] as int == '\r' as int && line[i
                    + 1] as int == '\n' as int;
            assert(line_ends_at(line, i));
        }
    }
    assert(begins_with(line, s) <==> word.is_prefix_of(line)) by {
        if line.len() >= word.len() {
            let start = line.take(s.len() as int);
            if begins_with(line, s) {
                assert forall|i: int| 0 <= i < word.len() implies word[i] == line.subrange(
                    0,
                    word.len() as int,
                )[i] by {
                    assert(start[i] as int == s[i] as int);
                    assert(word[i] as int == s[i] as int);
                }
                assert(word =~= line.subrange(0, word.len() as int));
            }
            if word.is_prefix_of(line) {
                assert(start =~= word);
            }
        }
    }
}

/// After the first line, the bus has to answer `OK`. Only then, and in this order, the client
/// asks for file descriptors, if it wants them, and begins. A bus that does not agree to file
/// descriptors, answers anything else or never ends its line is given up.
pub proof fn law_requests_follow_answers(
    before: HandshakeView,
    after: HandshakeView,
    action: HandshakeAction,
)
    requires
        next_step(before, after, action),
        before.line.len() <= 512,
    ensures
        after.with_fd == before.with_fd,
        after.id == before.id,
        before.stage is Auth ==> {
            let accepted = begins_with(before.line, "OK"@) && has_ended(before.line);
            &&& accepted && before.with_fd ==> after.stage is Negotiate && after.line.len() == 0
                && (action matches HandshakeAction::Write(b) && is_text(
                b@,
                "NEGOTIATE_UNIX_FD\r\n"@,
            ))
            &&& accepted && !before.with_fd ==> after.stage is Done && (
            action matches HandshakeAction::Write(b) && is_text(b@, "BEGIN\r\n"@))
            &&& keeps_reading(before.line, "OK"@) ==> after == before && action
                == HandshakeAction::Read((512 - before.line.len()) as usize)
            &&& !accepted && !keeps_reading(before.line, "OK"@) ==> after.stage is Failed
                && action == HandshakeAction::Fail(HandshakeError::AuthFailed)
        },
        before.stage is Negotiate ==> {
            let accepted = begins_with(before.line, "AGREE_UNIX_FD"@) && has_ended(before.line);
            &&& accepted ==> after.stage is Done && (action matches HandshakeAction::Write(b)
                && is_text(b@, "BEGIN\r\n"@))
            &&& keeps_reading(before.line, "AGREE_UNIX_FD"@) ==> after == before && action
                == HandshakeAction::Read((512 - before.line.len()) as usize)
            &&& !accepted && !keeps_reading(before.line, "AGREE_UNIX_FD"@) ==> after.stage
                is Failed && action == HandshakeAction::Fail(HandshakeError::NoUnixFds)
        },
        before.stage is Done <==> action is Finish,
        before.stage is Done || before.stage is Failed ==> after == before,
        before.stage is Failed ==> action == HandshakeAction::Fail(HandshakeError::HungUp),
{
    reveal_strlit("OK");
    reveal_strlit("AGREE_UNIX_FD");
    reveal_strlit("NEGOTIATE_UNIX_FD\r\n");
    reveal_strlit("BEGIN\r\n");
    lemma_answer_means(before.line, ok_word(), "OK"@);
    lemma_answer_means(before.line, agree_word(), "AGREE_UNIX_FD"@);
}

} // verus!
