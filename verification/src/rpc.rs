//! The decisions of a connection: what becomes of the messages that arrive, and what the answers
//! of the daemon mean.
use std::collections::HashMap;

use vstd::prelude::*;

use async_std::channel::Receiver;
use rustbus::wire::UnixFd;

use crate::conn::recv;
use crate::conn::recv::{Frame, RecvError, RecvState};
use crate::routing::hierarchy;
use crate::routing::hierarchy::{CallHandler, CallHierarchy, RouteView};
use crate::routing::queue;
use crate::routing::replies;
use crate::routing::rule_set;
use crate::routing::rule_set::{first_match, queue_sig, RuleSet};
use crate::routing::rules;
use crate::routing::rules::{Match, MatchView};
use crate::rustbus_core;
use crate::rustbus_core::marshal;
use crate::rustbus_core::message_builder;
use crate::rustbus_core::message_builder::body;
use crate::rustbus_core::message_builder::body::BodyView;
use crate::rustbus_core::message_builder::header;
use crate::rustbus_core::message_builder::{MarshalledMessage, MarshalledMessageBody, MessageView};
use crate::rustbus_core::path;
use crate::rustbus_core::path::ObjectPath;
use crate::rustbus_core::round_trip;
use crate::rustbus_core::standard_messages;
use crate::rustbus_core::standard_messages::{
    DBUS_REQUEST_NAME_REPLY_ALREADY_OWNER, DBUS_REQUEST_NAME_REPLY_PRIMARY_OWNER,
};
use crate::rustbus_core::wire_format;
use crate::rustbus_core::wire_format::MarshalError;
use crate::rustbus_core::{ByteOrder, MessageType, Serial};
use crate::utils;

verus! {

/// The flag of calls that are not answered.
pub const NO_REPLY_EXPECTED: u8 = 0x01;

/// A call that is answered.
pub open spec fn wants_reply(msg: MessageView) -> bool {
    msg.typ is Call && msg.flags & NO_REPLY_EXPECTED == 0
}

/// Whether the message is a call that is answered.
pub fn expects_reply(msg: &MarshalledMessage) -> (expected: bool)
    ensures
        expected == wants_reply(msg@),
{
    matches!(msg.typ, MessageType::Call) && (msg.flags & NO_REPLY_EXPECTED) == 0
}

// ---------------------------------------------------------------------------
// Serial numbers
// ---------------------------------------------------------------------------

/// The serial that is handed out `count` steps after `serial`.
pub open spec fn later_serial(serial: u32, count: nat) -> u32
    decreases count,
{
    if count == 0 {
        serial
    } else {
        rustbus_core::serial_after(later_serial(serial, (count - 1) as nat))
    }
}

/// Hands out the serial numbers of messages.
#[derive(Debug)]
pub struct SerialCounter {
    next: Serial,
}

impl View for SerialCounter {
    type V = u32;

    closed spec fn view(&self) -> u32 {
        self.next@
    }
}

impl SerialCounter {
    /// The first serial is one.
    pub fn new() -> (counter: Self)
        ensures
            counter@ == 1,
    {
        SerialCounter { next: Serial::first() }
    }

    /// The next serial.
    pub fn allocate_idx(&mut self) -> (serial: Serial)
        ensures
            serial@ == old(self)@,
            final(self)@ == rustbus_core::serial_after(old(self)@),
    {
        let serial = self.next;
        self.next = serial.next();
        serial
    }
}

/// Serials are repeated only after all of them were handed out.
pub proof fn law_serials_differ(serial: u32, a: nat, b: nat)
    requires
        serial != 0,
        a < b < a + u32::MAX,
    ensures
        later_serial(serial, a) != 0,
        later_serial(serial, a) != later_serial(serial, b),
{
    lemma_later_serial(serial, a);
    lemma_later_serial(serial, b);
    let n = u32::MAX as int;
    let (x, y) = (serial - 1 + a, serial - 1 + b);
    if x % n == y % n {
        vstd::arithmetic::div_mod::lemma_fundamental_div_mod(x, n);
        vstd::arithmetic::div_mod::lemma_fundamental_div_mod(y, n);
        let d = y / n - x / n;
        assert(n * (y / n) - n * (x / n) == n * d) by (nonlinear_arith)
            requires
                d == y / n - x / n,
        ;
        assert(d <= 0 || d >= 1);
        assert(d <= 0 ==> n * d <= 0) by (nonlinear_arith)
            requires
                n > 0,
        ;
        assert(d >= 1 ==> n * d >= n) by (nonlinear_arith)
            requires
                n > 0,
        ;
    }
}

proof fn lemma_later_serial(serial: u32, count: nat)
    requires
        serial != 0,
    ensures
        later_serial(serial, count) == 1 + (serial - 1 + count) % (u32::MAX as int),
    decreases count,
{
    let n = u32::MAX as int;
    if count == 0 {
        vstd::arithmetic::div_mod::lemma_small_mod((serial - 1) as nat, n as nat);
    } else {
        lemma_later_serial(serial, (count - 1) as nat);
        let x = serial - 1 + count - 1;
        vstd::arithmetic::div_mod::lemma_mod_bound(x, n);
        if x % n == n - 1 {
            assert((x + 1) % n == 0) by {
                vstd::arithmetic::div_mod::lemma_fundamental_div_mod(x, n);
                assert(x + 1 == n * (x / n + 1)) by (nonlinear_arith)
                    requires
                        x == n * (x / n) + x % n,
                        x % n == n - 1,
                ;
                vstd::arithmetic::div_mod::lemma_mod_multiples_basic(x / n + 1, n);
                assert((x / n + 1) * n == n * (x / n + 1)) by (nonlinear_arith);
            }
        } else {
            vstd::arithmetic::div_mod::lemma_fundamental_div_mod(x, n);
            vstd::arithmetic::div_mod::lemma_fundamental_div_mod_converse(
                x + 1,
                n,
                x / n,
                x % n + 1,
            );
        }
    }
}

// ---------------------------------------------------------------------------
// What becomes of messages that arrive
// ---------------------------------------------------------------------------

/// What somebody waits for.
pub enum Wanted<'a> {
    /// The answer to the call with this serial.
    Response(Serial),
    /// A signal whose most specific rule is this one.
    Signal(&'a Match),
    /// A call that belongs to the queue of the path.
    Call(ObjectPath<'a>),
}

impl<'a> Wanted<'a> {
    /// Whether the message is what is waited for.
    pub open spec fn is(
        self,
        table: Map<Seq<Seq<char>>, CallHandler>,
        rule_list: Seq<MatchView>,
        msg: MessageView,
    ) -> bool {
        match self {
            Wanted::Response(idx) => (msg.typ is Reply || msg.typ is Error)
                && msg.dynheader.response_serial == Some(idx@),
            Wanted::Signal(rule) => rules::first_matching(rule_list, msg) matches Some(i)
                && rule_list[i] == rule@,
            Wanted::Call(path) => msg.typ is Call && msg.dynheader.object is Some
                && hierarchy::matched(
                table,
                path.elements(),
                path::elements(msg.dynheader.object->Some_0),
            ),
        }
    }
}

/// What the caller has to do about a message.
pub enum Event<R> {
    /// There is no complete message: more bytes have to be read.
    NeedMore,
    /// This is what was waited for.
    Wanted(MarshalledMessage),
    /// The message was put into a queue.
    Queued,
    /// Nobody waits for the message.
    Ignored(MarshalledMessage),
    /// The message answers a call: it goes to whoever made it.
    Deliver(R, MarshalledMessage),
    /// The message is an answer that has to be sent.
    Answer(MarshalledMessage),
}

/// The message has the header fields that messages of its kind have.
pub open spec fn has_fields(msg: MessageView) -> bool {
    match msg.typ {
        MessageType::Invalid => false,
        MessageType::Signal => true,
        MessageType::Reply => msg.dynheader.response_serial is Some,
        MessageType::Error => msg.dynheader.response_serial is Some,
        MessageType::Call => msg.dynheader.object matches Some(object) && path::valid_path(object),
    }
}

/// What becomes of a message that nobody waits for in particular. `channels` are those behind
/// the queues of the rules.
pub open spec fn sorted_out<R>(
    table: Map<Seq<Seq<char>>, CallHandler>,
    rule_list: Seq<MatchView>,
    channels: Seq<int>,
    slots: Map<u32, R>,
    msg: MessageView,
    event: Event<R>,
    slots_after: Map<u32, R>,
) -> bool {
    match msg.typ {
        MessageType::Signal => {
            &&& slots_after == slots
            &&& match (event, rules::first_matching(rule_list, msg)) {
                (Event::Queued, Some(i)) => queue::offered(channels[i], msg, true),
                (Event::Ignored(back), Some(i)) => back@ == msg && queue::offered(
                    channels[i],
                    msg,
                    false,
                ),
                (Event::Ignored(back), None) => back@ == msg,
                _ => false,
            }
        },
        MessageType::Call => {
            let object = path::elements(msg.dynheader.object->Some_0);
            &&& slots_after == slots
            &&& match (event, hierarchy::routed(table, object)) {
                (Event::Queued, RouteView::Queue(q)) => queue::offered(q.channel(), msg, true),
                (Event::Answer(reply), RouteView::Queue(q)) => {
                    &&& queue::offered(q.channel(), msg, false)
                    &&& reply@ == replies::error_reply(msg.dynheader, replies::UNKNOWN_OBJECT@)
                },
                (Event::Answer(reply), RouteView::Intro) => exists|names: Seq<Seq<char>>|
                    {
                        &&& #[trigger] hierarchy::listed(table, object, names)
                        &&& reply@ == replies::intro_reply(msg.dynheader, names)
                    },
                (Event::Answer(reply), _) => reply@ == replies::error_reply(
                    msg.dynheader,
                    replies::UNKNOWN_OBJECT@,
                ),
                _ => false,
            }
        },
        _ => {
            let serial = msg.dynheader.response_serial->Some_0;
            if slots.contains_key(serial) {
                &&& event matches Event::Deliver(slot, reply) && slot == slots[serial] && reply@
                    == msg
                &&& slots_after == slots.remove(serial)
            } else {
                &&& event matches Event::Ignored(reply) && reply@ == msg
                &&& slots_after == slots
            }
        },
    }
}

/// What becomes of a message. `channels` are those behind the queues of the rules.
pub open spec fn handled<'a, R>(
    table: Map<Seq<Seq<char>>, CallHandler>,
    rule_list: Seq<MatchView>,
    channels: Seq<int>,
    slots: Map<u32, R>,
    wanted: Wanted<'a>,
    msg: MessageView,
    result: Result<Event<R>, RecvError>,
    slots_after: Map<u32, R>,
) -> bool {
    if !has_fields(msg) {
        &&& result matches Err(RecvError::MissingField)
        &&& slots_after == slots
    } else if wanted.is(table, rule_list, msg) {
        &&& result matches Ok(Event::Wanted(m)) && m@ == msg
        &&& slots_after == slots
    } else {
        result matches Ok(event) && sorted_out(
            table,
            rule_list,
            channels,
            slots,
            msg,
            event,
            slots_after,
        )
    }
}

/// What a connection knows about the messages that it receives. Whoever waits for the answer to
/// a call left something of type `R` behind that the answer goes to.
pub struct RecvData<R> {
    pub state: RecvState,
    pub reply_map: HashMap<u32, R>,
    pub hierarchy: CallHierarchy,
    pub sig_matches: RuleSet,
}

impl<R> RecvData<R> {
    pub open spec fn wf(self) -> bool {
        self.state.wf()
    }

    /// A connection on which nothing is waited for.
    pub fn new(state: RecvState) -> (data: Self)
        requires
            state.wf(),
        ensures
            data.wf(),
            data.state == state,
            data.reply_map@ == Map::<u32, R>::empty(),
            data.hierarchy@ == map![Seq::<Seq<char>>::empty() => CallHandler::Drop],
            data.sig_matches@ == Seq::<MatchView>::empty(),
    {
        RecvData {
            state,
            reply_map: HashMap::new(),
            hierarchy: CallHierarchy::new(),
            sig_matches: RuleSet::new(),
        }
    }

    /// Somebody waits for the answer to a call.
    pub fn insert_sender(&mut self, idx: Serial, sender: R)
        ensures
            final(self).reply_map@ == old(self).reply_map@.insert(idx@, sender),
            final(self).state == old(self).state,
            final(self).hierarchy == old(self).hierarchy,
            final(self).sig_matches == old(self).sig_matches,
    {
        broadcast use vstd::std_specs::hash::group_hash_axioms;

        self.reply_map.insert(idx.get(), sender);
    }

    /// Nobody waits for the answer to a call any more.
    pub fn remove_sender(&mut self, idx: Serial)
        ensures
            final(self).reply_map@ == old(self).reply_map@.remove(idx@),
            final(self).state == old(self).state,
            final(self).hierarchy == old(self).hierarchy,
            final(self).sig_matches == old(self).sig_matches,
    {
        broadcast use vstd::std_specs::hash::group_hash_axioms;

        let _ = self.reply_map.remove(&idx.get());
        assert(self.reply_map@ =~= old(self).reply_map@.remove(idx@));
    }

    /// Whether a message is what is waited for.
    fn is_wanted(&self, wanted: &Wanted<'_>, msg: &MarshalledMessage) -> (is: bool)
        requires
            has_fields(msg@),
        ensures
            is == wanted.is(self.hierarchy@, self.sig_matches@, msg@),
    {
        match wanted {
            Wanted::Response(idx) => match (&msg.typ, &msg.dynheader.response_serial) {
                (MessageType::Reply, Some(serial)) => serial.get() == idx.get(),
                (MessageType::Error, Some(serial)) => serial.get() == idx.get(),
                _ => false,
            },
            Wanted::Signal(rule) => {
                let list = self.sig_matches.as_slice();
                match first_match(list, msg) {
                    Some(i) => {
                        assert(rule_set::rule_views(list@)[i as int] == list@[i as int]@);
                        list[i] == **rule
                    },
                    None => false,
                }
            },
            Wanted::Call(path) => match (&msg.typ, &msg.dynheader.object) {
                (MessageType::Call, Some(object)) => match ObjectPath::new(object.as_str()) {
                    Ok(msg_path) => self.hierarchy.is_match(*path, msg_path),
                    Err(_) => false,
                },
                _ => false,
            },
        }
    }

    /// Whether a message has the header fields that messages of its kind have.
    fn fields_there(msg: &MarshalledMessage) -> (there: bool)
        ensures
            there == has_fields(msg@),
    {
        match msg.typ {
            MessageType::Invalid => false,
            MessageType::Signal => true,
            MessageType::Reply | MessageType::Error => msg.dynheader.response_serial.is_some(),
            MessageType::Call => match &msg.dynheader.object {
                Some(object) => ObjectPath::new(object.as_str()).is_ok(),
                None => false,
            },
        }
    }

    /// Hands a message on to whoever waits for it.
    pub fn handle_msg(&mut self, wanted: &Wanted<'_>, msg: MarshalledMessage) -> (result: Result<
        Event<R>,
        RecvError,
    >)
        ensures
            handled(
                old(self).hierarchy@,
                old(self).sig_matches@,
                old(self).sig_matches.channels(),
                old(self).reply_map@,
                *wanted,
                msg@,
                result,
                final(self).reply_map@,
            ),
            final(self).state == old(self).state,
            final(self).hierarchy == old(self).hierarchy,
            final(self).sig_matches == old(self).sig_matches,
    {
        broadcast use vstd::std_specs::hash::group_hash_axioms;

        if !Self::fields_there(&msg) {
            return Err(RecvError::MissingField);
        }
        if self.is_wanted(wanted, &msg) {
            return Ok(Event::Wanted(msg));
        }
        match msg.typ {
            MessageType::Signal => {
                let list = self.sig_matches.as_slice();
                proof {
                    rules::lemma_first_matching(self.sig_matches@, msg@);
                    if let Some(i) = rules::first_matching(self.sig_matches@, msg@) {
                        assert(list@[i].queue is Some);
                    }
                }
                match queue_sig(list, msg) {
                    Some(back) => Ok(Event::Ignored(back)),
                    None => Ok(Event::Queued),
                }
            },
            MessageType::Reply | MessageType::Error => match msg.dynheader.response_serial {
                Some(serial) => {
                    let idx: u32 = serial.get();
                    match self.reply_map.remove(&idx) {
                        Some(sender) => {
                            assert(self.reply_map@ =~= old(self).reply_map@.remove(idx));
                            Ok(Event::Deliver(sender, msg))
                        },
                        None => {
                            assert(self.reply_map@ =~= old(self).reply_map@);
                            Ok(Event::Ignored(msg))
                        },
                    }
                },
                None => Err(RecvError::MissingField),
            },
            MessageType::Call => match self.hierarchy.send(msg) {
                Ok(()) => Ok(Event::Queued),
                Err(reply) => Ok(Event::Answer(reply)),
            },
            MessageType::Invalid => Err(RecvError::MissingField),
        }
    }

    /// Takes the next message out of the bytes that were received, and hands it on. An error
    /// means that the peer broke the protocol: the connection has to be shut down.
    pub fn queue_msg(&mut self, wanted: &Wanted<'_>) -> (result: Result<Event<R>, RecvError>)
        requires
            old(self).wf(),
        ensures
            final(self).wf(),
            final(self).hierarchy == old(self).hierarchy,
            final(self).sig_matches == old(self).sig_matches,
            match recv::frame(old(self).state.pending(), old(self).state.with_fd()) {
                Frame::Incomplete => {
                    &&& result matches Ok(Event::NeedMore)
                    &&& final(self).state.waiting()
                    &&& final(self).state.pending() == old(self).state.pending()
                    &&& final(self).state.fds() == old(self).state.fds()
                    &&& final(self).reply_map@ == old(self).reply_map@
                },
                Frame::Bad(error) => {
                    &&& result matches Err(e) && e == error
                    &&& final(self).state.started_over(old(self).state.pending())
                    &&& final(self).reply_map@ == old(self).reply_map@
                },
                Frame::Complete { hdr, dynhdr, body: bytes, end } => {
                    let msg = recv::received_message(hdr, dynhdr, bytes, old(self).state.fds());
                    &&& final(self).state.pending() == old(self).state.pending().skip(end)
                    &&& final(self).state.started_over(old(self).state.pending())
                    &&& if old(self).state.fds().len() != recv::announced_fds(dynhdr) {
                        &&& result matches Err(RecvError::WrongFdCount)
                        &&& final(self).reply_map@ == old(self).reply_map@
                    } else if !body::valid_body(msg.body) {
                        &&& result matches Err(RecvError::BadBody)
                        &&& final(self).reply_map@ == old(self).reply_map@
                    } else {
                        handled(
                            old(self).hierarchy@,
                            old(self).sig_matches@,
                            old(self).sig_matches.channels(),
                            old(self).reply_map@,
                            *wanted,
                            msg,
                            result,
                            final(self).reply_map@,
                        )
                    }
                },
            },
    {
        match self.state.get_next_message() {
            Ok(Some(msg)) => self.handle_msg(wanted, msg),
            Ok(None) => Ok(Event::NeedMore),
            Err(error) => Err(error),
        }
    }

    /// A receiver of the queue that holds what is waited for. There is none for answers, for
    /// rules that were not added and for paths without a queue.
    pub fn get_receiver(&self, wanted: &Wanted<'_>) -> (receiver: Option<
        Receiver<MarshalledMessage>,
    >)
        ensures
            match wanted {
                Wanted::Response(_) => receiver is None,
                Wanted::Signal(rule) => match receiver {
                    Some(receiver) => exists|i: int|
                        0 <= i < self.sig_matches@.len() && #[trigger] self.sig_matches@[i] == rule@
                            && queue::receiver_channel(receiver) == self.sig_matches.queue_at(
                            i,
                        ).channel(),
                    None => !self.sig_matches@.contains(rule@),
                },
                Wanted::Call(path) => match receiver {
                    Some(receiver) => self.hierarchy@.contains_key(path.elements()) && (
                    self.hierarchy@[path.elements()].spec_queue() matches Some(q)
                        && queue::receiver_channel(receiver) == q.channel()),
                    None => self.hierarchy@.contains_key(path.elements())
                        ==> self.hierarchy@[path.elements()].spec_queue() is None,
                },
            },
    {
        match wanted {
            Wanted::Response(_) => None,
            Wanted::Signal(rule) => match self.sig_matches.get_queue(rule) {
                Some(queue) => Some(queue.get_receiver()),
                None => None,
            },
            Wanted::Call(path) => match self.hierarchy.get_queue(*path) {
                Some(queue) => Some(queue.get_receiver()),
                None => None,
            },
        }
    }
}

/// The answer to a call that nobody waits for any more is ignored, and leaves nothing behind.
pub proof fn law_forgotten_answers_are_ignored<'a, R>(
    table: Map<Seq<Seq<char>>, CallHandler>,
    rule_list: Seq<MatchView>,
    channels: Seq<int>,
    slots: Map<u32, R>,
    wanted: Wanted<'a>,
    msg: MessageView,
    result: Result<Event<R>, RecvError>,
    slots_after: Map<u32, R>,
)
    requires
        msg.typ is Reply || msg.typ is Error,
        msg.dynheader.response_serial is Some,
        !wanted.is(table, rule_list, msg),
        handled(
            table,
            rule_list,
            channels,
            slots.remove(msg.dynheader.response_serial->Some_0),
            wanted,
            msg,
            result,
            slots_after,
        ),
    ensures
        result matches Ok(Event::Ignored(_)),
        slots_after == slots.remove(msg.dynheader.response_serial->Some_0),
{
}

/// An answer goes to whoever waits for it, and to nobody else afterwards.
pub proof fn law_answers_go_to_their_call<'a, R>(
    table: Map<Seq<Seq<char>>, CallHandler>,
    rule_list: Seq<MatchView>,
    channels: Seq<int>,
    slots: Map<u32, R>,
    slot: R,
    wanted: Wanted<'a>,
    msg: MessageView,
    result: Result<Event<R>, RecvError>,
    slots_after: Map<u32, R>,
)
    requires
        msg.typ is Reply || msg.typ is Error,
        msg.dynheader.response_serial is Some,
        !wanted.is(table, rule_list, msg),
        handled(
            table,
            rule_list,
            channels,
            slots.insert(msg.dynheader.response_serial->Some_0, slot),
            wanted,
            msg,
            result,
            slots_after,
        ),
    ensures
        result matches Ok(Event::Deliver(to, reply)) && to == slot && reply@ == msg,
        !slots_after.contains_key(msg.dynheader.response_serial->Some_0),
        forall|other: u32|
            other != msg.dynheader.response_serial->Some_0 ==> (slots_after.contains_key(other)
                <==> #[trigger] slots.contains_key(other)),
{
}

/// A message that is queued goes where it is waited for: a signal into the queue of the first
/// rule that it matches, a call into the queue of a path that it belongs to.
pub proof fn law_queued_where_waited_for<'a, R>(
    table: Map<Seq<Seq<char>>, CallHandler>,
    rule_list: Seq<MatchView>,
    channels: Seq<int>,
    slots: Map<u32, R>,
    wanted: Wanted<'a>,
    msg: MessageView,
    slots_after: Map<u32, R>,
)
    requires
        handled(
            table,
            rule_list,
            channels,
            slots,
            wanted,
            msg,
            Ok::<Event<R>, RecvError>(Event::Queued),
            slots_after,
        ),
    ensures
        msg.typ is Signal || msg.typ is Call,
        msg.typ is Signal ==> (rules::first_matching(rule_list, msg) matches Some(i)
            && queue::offered(channels[i], msg, true)),
        msg.typ is Call ==> {
            let object = path::elements(msg.dynheader.object->Some_0);
            exists|k: int|
                0 <= k <= object.len() && #[trigger] hierarchy::matched(
                    table,
                    object.take(k),
                    object,
                ) && (table[object.take(k)].spec_queue() matches Some(q) && queue::offered(
                    q.channel(),
                    msg,
                    true,
                ))
        },
        slots_after == slots,
{
    if msg.typ is Call {
        let object = path::elements(msg.dynheader.object->Some_0);
        if let RouteView::Queue(q) = hierarchy::routed(table, object) {
            hierarchy::law_queued_is_matched(table, object, q);
        }
    }
}

// ---------------------------------------------------------------------------
// What the answers of the daemon mean
// ---------------------------------------------------------------------------

/// The type of the first parameter, where the signature can be worked with.
pub open spec fn first_type(b: BodyView) -> Option<Seq<char>> {
    if body::parsable(b.sig) && body::parser_at_start(b).types.len() > 0 {
        Some(body::parser_at_start(b).types[0])
    } else {
        None
    }
}

/// The first parameter, where it is a text.
pub open spec fn first_text(b: BodyView) -> Option<Seq<char>> {
    match marshal::aligned_string_at(b.buf, 0, b.byteorder) {
        Ok((_, s)) => if first_type(b) == Some(seq!['s']) {
            Some(s)
        } else {
            None
        },
        Err(_) => None,
    }
}

/// The first parameter, where it is a number.
pub open spec fn first_number(b: BodyView) -> Option<u32> {
    match marshal::aligned_u32_at(b.buf, 0, b.byteorder) {
        Ok((_, n)) => if first_type(b) == Some(seq!['u']) {
            Some(n)
        } else {
            None
        },
        Err(_) => None,
    }
}

/// The first parameter, where it is a structure of two texts.
pub open spec fn first_text_pair(b: BodyView) -> Option<(Seq<char>, Seq<char>)> {
    match marshal::text_pair_at(b.buf, 0, b.byteorder) {
        Ok((_, first, second)) => if first_type(b) == Some(seq!['(', 's', 's', ')']) {
            Some((first, second))
        } else {
            None
        },
        Err(_) => None,
    }
}

fn text_param(b: &MarshalledMessageBody) -> (s: Option<&str>)
    ensures
        match s {
            Some(s) => first_text(b@) == Some(s@),
            None => first_text(b@) is None,
        },
{
    match b.try_parser() {
        Ok(parser) => {
            let mut parser = parser;
            match parser.get::<&str>() {
                Ok(s) => Some(s),
                Err(_) => None,
            }
        },
        Err(_) => None,
    }
}

fn number_param(b: &MarshalledMessageBody) -> (n: Option<u32>)
    ensures
        n == first_number(b@),
{
    match b.try_parser() {
        Ok(parser) => {
            let mut parser = parser;
            match parser.get::<u32>() {
                Ok(n) => Some(n),
                Err(_) => None,
            }
        },
        Err(_) => None,
    }
}

fn text_pair_param(b: &MarshalledMessageBody) -> (pair: Option<(&str, &str)>)
    ensures
        match pair {
            Some(pair) => first_text_pair(b@) == Some((pair.0@, pair.1@)),
            None => first_text_pair(b@) is None,
        },
{
    match b.try_parser() {
        Ok(parser) => {
            let mut parser = parser;
            match parser.get::<(&str, &str)>() {
                Ok(pair) => Some(pair),
                Err(_) => None,
            }
        },
        Err(_) => None,
    }
}

/// Why a connection was not accepted.
#[derive(Debug)]
pub enum HelloError {
    /// The answer does not hold the name of the connection.
    NoName,
    /// The daemon refused, with this message.
    Refused(String),
    /// The answer is of another kind.
    Unexpected,
}

/// The message of a refused connection.
pub open spec fn refusal_text(b: BodyView) -> Seq<char> {
    let (error, details) = match first_text_pair(b) {
        Some(pair) => pair,
        None => ("Unable to parse message"@, ""@),
    };
    "Hello message failed with: "@ + error + ": "@ + details
}

/// The name that the daemon gave to the connection.
pub fn hello_answer(res: &MarshalledMessage) -> (result: Result<String, HelloError>)
    ensures
        match res.typ {
            MessageType::Reply => match result {
                Ok(name) => first_text(res.body@) == Some(name@),
                Err(error) => error is NoName && first_text(res.body@) is None,
            },
            MessageType::Error => result matches Err(HelloError::Refused(s)) && s@ == refusal_text(
                res.body@,
            ),
            _ => result matches Err(HelloError::Unexpected),
        },
{
    match res.typ {
        MessageType::Reply => match text_param(&res.body) {
            Some(name) => Ok(name.to_owned()),
            None => Err(HelloError::NoName),
        },
        MessageType::Error => {
            let (error, details) = match text_pair_param(&res.body) {
                Some(pair) => pair,
                None => ("Unable to parse message", ""),
            };
            let mut s = "Hello message failed with: ".to_owned();
            s.append(error);
            s.append(": ");
            s.append(details);
            Err(HelloError::Refused(s))
        },
        _ => Err(HelloError::Unexpected),
    }
}

/// Whether the daemon gave the name that was asked for, or had given it before.
pub fn name_granted(res: &MarshalledMessage) -> (granted: bool)
    ensures
        granted == (res.typ !is Error && (first_number(res.body@) == Some(
            DBUS_REQUEST_NAME_REPLY_PRIMARY_OWNER,
        ) || first_number(res.body@) == Some(DBUS_REQUEST_NAME_REPLY_ALREADY_OWNER))),
        granted ==> first_number(res.body@) == Some(1u32) || first_number(res.body@) == Some(4u32),
        res.typ is Reply && (first_number(res.body@) == Some(1u32) || first_number(res.body@)
            == Some(4u32)) ==> granted,
{
    if matches!(res.typ, MessageType::Error) {
        return false;
    }
    match number_param(&res.body) {
        Some(n) => n == DBUS_REQUEST_NAME_REPLY_PRIMARY_OWNER || n
            == DBUS_REQUEST_NAME_REPLY_ALREADY_OWNER,
        None => false,
    }
}

/// The message of an error of the daemon.
pub open spec fn error_text(b: BodyView) -> Seq<char> {
    match first_text(b) {
        Some(s) => s,
        None => "Unknown DBus Error Type!"@,
    }
}

/// Whether the daemon did as it was asked, or the message of its error.
pub fn match_answer(res: &MarshalledMessage) -> (result: Result<(), String>)
    requires
        res.typ is Reply || res.typ is Error,
    ensures
        match result {
            Ok(()) => res.typ is Reply,
            Err(s) => res.typ is Error && s@ == error_text(res.body@),
        },
{
    match res.typ {
        MessageType::Error => match text_param(&res.body) {
            Some(s) => Err(s.to_owned()),
            None => Err("Unknown DBus Error Type!".to_owned()),
        },
        _ => Ok(()),
    }
}

impl<R> RecvData<R> {
    /// Adds a rule. Returns the call that asks the daemon for its signals, or `None` where the
    /// rule is there already.
    pub fn insert_sig_match(&mut self, sig_match: &Match) -> (call: Option<MarshalledMessage>)
        requires
            !(sig_match.path is Some && sig_match.path_namespace is Some),
        ensures
            final(self).state == old(self).state,
            final(self).hierarchy == old(self).hierarchy,
            final(self).reply_map == old(self).reply_map,
            rules::ordered(final(self).sig_matches@),
            match call {
                None => {
                    &&& old(self).sig_matches@.contains(sig_match@)
                    &&& final(self).sig_matches == old(self).sig_matches
                },
                Some(call) => {
                    &&& !old(self).sig_matches@.contains(sig_match@)
                    &&& rule_added(old(self).sig_matches, sig_match@, final(self).sig_matches)
                    &&& call@ == standard_messages::daemon_call(
                        "AddMatch"@,
                        body::text_body(rules::rule_text(sig_match@)),
                    )
                },
            },
    {
        if self.sig_matches.insert(sig_match) {
            let match_str = sig_match.match_string();
            Some(standard_messages::add_match(match_str.as_str()))
        } else {
            None
        }
    }

    /// Takes the answer of the daemon to the call that asks for the signals of a rule. Where it
    /// is an error, the rule is taken away again.
    pub fn sig_match_answered(&mut self, sig_match: &Match, res: &MarshalledMessage) -> (result:
        Result<(), String>)
        requires
            res.typ is Reply || res.typ is Error,
        ensures
            final(self).state == old(self).state,
            final(self).hierarchy == old(self).hierarchy,
            final(self).reply_map == old(self).reply_map,
            match result {
                Ok(()) => res.typ is Reply && final(self).sig_matches == old(self).sig_matches,
                Err(s) => {
                    &&& res.typ is Error
                    &&& s@ == error_text(res.body@)
                    &&& rule_removed(old(self).sig_matches, sig_match@, final(self).sig_matches)
                },
            },
    {
        let result = match_answer(res);
        if result.is_err() {
            let _ = self.sig_matches.remove(sig_match);
        }
        result
    }

    /// Takes a rule away, with the signals in its queue. Returns the call that asks the daemon
    /// for no more of its signals, or `None` where the rule is not there.
    pub fn remove_sig_match(&mut self, sig_match: &Match) -> (call: Option<MarshalledMessage>)
        ensures
            final(self).state == old(self).state,
            final(self).hierarchy == old(self).hierarchy,
            final(self).reply_map == old(self).reply_map,
            rule_removed(old(self).sig_matches, sig_match@, final(self).sig_matches),
            match call {
                None => !old(self).sig_matches@.contains(sig_match@),
                Some(call) => {
                    &&& old(self).sig_matches@.contains(sig_match@)
                    &&& call@ == standard_messages::daemon_call(
                        "RemoveMatch"@,
                        body::text_body(rules::rule_text(sig_match@)),
                    )
                },
            },
    {
        if self.sig_matches.remove(sig_match) {
            let match_str = sig_match.match_string();
            Some(standard_messages::remove_match(match_str.as_str()))
        } else {
            None
        }
    }
}

/// The rules with the given one, which has a new queue. The others keep theirs.
pub open spec fn rule_added(before: RuleSet, rule: MatchView, after: RuleSet) -> bool {
    let k = rules::rule_position(before@, rule);
    &&& after@ == before@.insert(k, rule)
    &&& after.queues() == before.queues().insert(k, after.queue_at(k))
    &&& queue::limit(after.queue_at(k).channel()) is None
}

/// The rules without the given one. The others keep their queues.
pub open spec fn rule_removed(before: RuleSet, rule: MatchView, after: RuleSet) -> bool {
    &&& rules::ordered(after@)
    &&& if before@.contains(rule) {
        exists|i: int|
            0 <= i < before@.len() && #[trigger] before@[i] == rule && after@ == before@.remove(i)
                && after.queues() == before.queues().remove(i)
    } else {
        after == before
    }
}

/// A rule that was added and that the daemon refused leaves no trace: the rules are those of
/// before, with their queues.
pub proof fn law_refused_rules_leave_no_trace(
    before: RuleSet,
    rule: MatchView,
    added: RuleSet,
    after: RuleSet,
)
    requires
        rules::ordered(before@),
        !before@.contains(rule),
        rule_added(before, rule, added),
        rule_removed(added, rule, after),
    ensures
        after@ == before@,
        after.queues() == before.queues(),
{
    rules::lemma_rule_position(before@, rule);
    let k = rules::rule_position(before@, rule);
    assert(added@[k] == rule);
    let i = choose|i: int|
        0 <= i < added@.len() && #[trigger] added@[i] == rule && after@ == added@.remove(i)
            && after.queues() == added.queues().remove(i);
    if i < k {
        assert(before@[i] == rule);
    } else if i > k {
        assert(before@[i - 1] == rule);
    }
    assert(added@.remove(k) =~= before@);
    assert(added.queues().remove(k) =~= before.queues());
}

// ---------------------------------------------------------------------------
// Who gets what
// ---------------------------------------------------------------------------

/// What is handed out as the answer to the call with serial `n` is a reply or an error whose
/// response serial is `n`, and every such message is handed out.
pub proof fn law_wanted_answer_is_for_the_call<R>(
    table: Map<Seq<Seq<char>>, CallHandler>,
    rule_list: Seq<MatchView>,
    channels: Seq<int>,
    slots: Map<u32, R>,
    n: Serial,
    msg: MessageView,
    result: Result<Event<R>, RecvError>,
    slots_after: Map<u32, R>,
)
    requires
        handled(table, rule_list, channels, slots, Wanted::Response(n), msg, result, slots_after),
    ensures
        result matches Ok(Event::Wanted(answer)) ==> {
            &&& answer@ == msg
            &&& msg.typ is Reply || msg.typ is Error
            &&& msg.dynheader.response_serial == Some(n@)
            &&& slots_after == slots
        },
        (msg.typ is Reply || msg.typ is Error) && msg.dynheader.response_serial == Some(n@) ==> (
        result matches Ok(Event::Wanted(answer)) && answer@ == msg),
{
}

/// What is handed out as the signal that a rule is waited for by agrees with the rule in each
/// field that the rule sets, and the rule is the first one in the list that it agrees with.
pub proof fn law_wanted_signal_agrees<'a, R>(
    table: Map<Seq<Seq<char>>, CallHandler>,
    rule_list: Seq<MatchView>,
    channels: Seq<int>,
    slots: Map<u32, R>,
    rule: &'a Match,
    msg: MessageView,
    result: Result<Event<R>, RecvError>,
    slots_after: Map<u32, R>,
)
    requires
        handled(table, rule_list, channels, slots, Wanted::Signal(rule), msg, result, slots_after),
    ensures
        result matches Ok(Event::Wanted(signal)) ==> {
            &&& signal@ == msg
            &&& slots_after == slots
            &&& msg.typ is Signal
            &&& rule@.sender matches Some(x) ==> msg.dynheader.sender == Some(x)
            &&& rule@.path matches Some(x) ==> msg.dynheader.object == Some(x)
            &&& rule@.interface matches Some(x) ==> msg.dynheader.interface == Some(x)
            &&& rule@.member matches Some(x) ==> msg.dynheader.member == Some(x)
            &&& rule@.path_namespace matches Some(x) ==> (msg.dynheader.object matches Some(object)
                && (path::valid_path(x) && path::valid_path(object) ==> path::same_or_above(
                x,
                object,
            )))
            &&& exists|i: int|
                0 <= i < rule_list.len() && #[trigger] rule_list[i] == rule@ && forall|j: int|
                    0 <= j < i ==> !rules::rule_matches(#[trigger] rule_list[j], msg)
        },
        forall|i: int|
            0 <= i < rule_list.len() && #[trigger] rule_list[i] == rule@ && rules::rule_matches(
                rule@,
                msg,
            ) && (forall|j: int|
                0 <= j < i ==> !rules::rule_matches(#[trigger] rule_list[j], msg)) ==> (
            result matches Ok(Event::Wanted(signal)) && signal@ == msg),
{
    rules::lemma_first_matching(rule_list, msg);
    if result matches Ok(Event::Wanted(_)) {
        rules::law_matched_signal_agrees(rule@, msg);
    }
    assert forall|i: int|
        0 <= i < rule_list.len() && #[trigger] rule_list[i] == rule@ && rules::rule_matches(
            rule@,
            msg,
        ) && (forall|j: int| 0 <= j < i ==> !rules::rule_matches(#[trigger] rule_list[j], msg))
        implies (result matches Ok(Event::Wanted(signal)) && signal@ == msg) by {
        rules::law_matched_signal_agrees(rule@, msg);
        let first = rules::first_matching(rule_list, msg)->Some_0;
        if first < i {
            assert(!rules::rule_matches(rule_list[first], msg));
        }
        assert(first == i);
    }
}

/// What is handed out as a call of a path is a call for that path or one below it, and the path
/// has a queue.
pub proof fn law_wanted_call_belongs_to_the_path<'a, R>(
    table: Map<Seq<Seq<char>>, CallHandler>,
    rule_list: Seq<MatchView>,
    channels: Seq<int>,
    slots: Map<u32, R>,
    path: ObjectPath<'a>,
    msg: MessageView,
    result: Result<Event<R>, RecvError>,
    slots_after: Map<u32, R>,
)
    requires
        handled(table, rule_list, channels, slots, Wanted::Call(path), msg, result, slots_after),
    ensures
        result matches Ok(Event::Wanted(call)) ==> {
            &&& call@ == msg
            &&& slots_after == slots
            &&& msg.typ is Call
            &&& msg.dynheader.object matches Some(object) && path::valid_path(object) && {
                let own = path.elements();
                let theirs = path::elements(object);
                &&& own.len() <= theirs.len()
                &&& theirs.take(own.len() as int) == own
                &&& hierarchy::decided_at(table, theirs, own.len() as int)
                &&& table[own] is Queue || table[own] is Exact
                &&& path::valid_path(path@) ==> path::same_or_above(path@, object)
            }
        },
        msg.typ is Call && (msg.dynheader.object matches Some(object) && path::valid_path(object)
            && {
            let own = path.elements();
            let theirs = path::elements(object);
            &&& own.len() <= theirs.len()
            &&& theirs.take(own.len() as int) == own
            &&& hierarchy::decided_at(table, theirs, own.len() as int)
            &&& table[own] is Queue || (table[own] is Exact && own == theirs)
        }) ==> (result matches Ok(Event::Wanted(call)) && call@ == msg),
{
    if let Some(object) = msg.dynheader.object {
        hierarchy::law_belongs_to_longest_path(table, path.elements(), path::elements(object));
        if path::valid_path(object) && path::valid_path(path@) && hierarchy::matched(
            table,
            path.elements(),
            path::elements(object),
        ) {
            path::lemma_starts_valid_path(object, path@);
            path::lemma_valid_path(path@);
            path::law_starts_with_text(object, path@);
        }
    }
}

/// A message that goes to whoever made a call answers that call, and nobody else waits for it.
pub proof fn law_delivered_to_whoever_made_the_call<'a, R>(
    table: Map<Seq<Seq<char>>, CallHandler>,
    rule_list: Seq<MatchView>,
    channels: Seq<int>,
    slots: Map<u32, R>,
    wanted: Wanted<'a>,
    msg: MessageView,
    result: Result<Event<R>, RecvError>,
    slots_after: Map<u32, R>,
)
    requires
        handled(table, rule_list, channels, slots, wanted, msg, result, slots_after),
    ensures
        result matches Ok(Event::Deliver(slot, answer)) ==> {
            &&& answer@ == msg
            &&& msg.typ is Reply || msg.typ is Error
            &&& msg.dynheader.response_serial matches Some(n) && slots.contains_key(n) && slot
                == slots[n] && slots_after == slots.remove(n) && !(wanted matches Wanted::Response(
                m,
            ) && m@ == n)
        },
        !(result matches Ok(Event::Deliver(_, _))) ==> slots_after == slots,
        (msg.typ is Reply || msg.typ is Error) && (msg.dynheader.response_serial matches Some(n)
            && slots.contains_key(n) && !(wanted matches Wanted::Response(m) && m@ == n)) ==> (
        result matches Ok(Event::Deliver(_, _))),
{
    rules::lemma_first_matching(rule_list, msg);
    if let Wanted::Signal(_) = wanted {
        if let Some(i) = rules::first_matching(rule_list, msg) {
            rules::law_matched_signal_agrees(rule_list[i], msg);
        }
    }
}

/// The answer that is sent to a call without anybody else taking part is addressed to its
/// sender, answers its serial, and is an error unless the call asks for a description.
pub proof fn law_answers_are_addressed<'a, R>(
    table: Map<Seq<Seq<char>>, CallHandler>,
    rule_list: Seq<MatchView>,
    channels: Seq<int>,
    slots: Map<u32, R>,
    wanted: Wanted<'a>,
    msg: MessageView,
    result: Result<Event<R>, RecvError>,
    slots_after: Map<u32, R>,
)
    requires
        handled(table, rule_list, channels, slots, wanted, msg, result, slots_after),
    ensures
        result matches Ok(Event::Answer(answer)) ==> {
            &&& msg.typ is Call
            &&& answer@.dynheader.destination == msg.dynheader.sender
            &&& answer@.dynheader.response_serial == msg.dynheader.serial
            &&& answer@.typ is Reply || answer@.typ is Error
            &&& answer@.typ is Reply ==> msg.dynheader.interface == Some(
                "org.freedesktop.DBus.Introspectable"@,
            )
            &&& answer@.typ is Reply ==> answer@.dynheader.error_name is None
            &&& answer@.typ is Error ==> answer@.dynheader.error_name == Some("UnknownObject"@)
                || answer@.dynheader.error_name == Some("UnknownInterface"@)
            &&& answer@.typ is Error ==> answer@.body.buf.len() == 0
        },
{
}

/// A call that nobody waits for in particular goes into the queue that its path belongs to, and
/// is otherwise answered: nothing else becomes of it.
pub proof fn law_calls_are_queued_or_answered<'a, R>(
    table: Map<Seq<Seq<char>>, CallHandler>,
    rule_list: Seq<MatchView>,
    channels: Seq<int>,
    slots: Map<u32, R>,
    wanted: Wanted<'a>,
    msg: MessageView,
    result: Result<Event<R>, RecvError>,
    slots_after: Map<u32, R>,
    k: int,
)
    requires
        handled(table, rule_list, channels, slots, wanted, msg, result, slots_after),
        msg.typ is Call,
        msg.dynheader.object matches Some(object) && path::valid_path(object)
            && hierarchy::decided_at(table, path::elements(object), k),
        !(result matches Ok(Event::Wanted(_))),
    ensures
        slots_after == slots,
        result matches Ok(Event::Queued) || result matches Ok(Event::Answer(_)),
        ({
            let object = path::elements(msg.dynheader.object->Some_0);
            let unknown = result matches Ok(Event::Answer(answer)) && answer@.typ is Error
                && answer@.dynheader.error_name == Some("UnknownObject"@);
            match table[object.take(k)] {
                CallHandler::Queue(q) => {
                    &&& queue::offered(q.channel(), msg, result matches Ok(Event::Queued))
                    &&& !(result matches Ok(Event::Queued)) ==> unknown
                },
                CallHandler::Exact(q) => if k == object.len() {
                    &&& queue::offered(q.channel(), msg, result matches Ok(Event::Queued))
                    &&& !(result matches Ok(Event::Queued)) ==> unknown
                } else {
                    unknown
                },
                CallHandler::Intro => if k == object.len() || hierarchy::leads_on(
                    table,
                    object,
                    k + 1,
                ) {
                    result matches Ok(Event::Answer(answer)) && if msg.dynheader.interface == Some(
                        "org.freedesktop.DBus.Introspectable"@,
                    ) {
                        answer@.typ is Reply
                    } else {
                        answer@.typ is Error && answer@.dynheader.error_name == Some(
                            "UnknownInterface"@,
                        )
                    }
                } else {
                    unknown
                },
                _ => unknown,
            }
        }),
{
    let object = path::elements(msg.dynheader.object->Some_0);
    hierarchy::law_longest_path_decides(table, object, k);
}

/// A message is refused if and only if it lacks what messages of its kind need: an answer the
/// serial of the call, and a call the path of the object. Signals need nothing.
pub proof fn law_refused_without_fields<'a, R>(
    table: Map<Seq<Seq<char>>, CallHandler>,
    rule_list: Seq<MatchView>,
    channels: Seq<int>,
    slots: Map<u32, R>,
    wanted: Wanted<'a>,
    msg: MessageView,
    result: Result<Event<R>, RecvError>,
    slots_after: Map<u32, R>,
)
    requires
        handled(table, rule_list, channels, slots, wanted, msg, result, slots_after),
    ensures
        result is Err <==> match msg.typ {
            MessageType::Signal => false,
            MessageType::Reply => msg.dynheader.response_serial is None,
            MessageType::Error => msg.dynheader.response_serial is None,
            MessageType::Call => !(msg.dynheader.object matches Some(object) && path::valid_path(
                object,
            )),
            MessageType::Invalid => true,
        },
        result matches Err(error) ==> error is MissingField && slots_after == slots,
        !(result matches Ok(Event::NeedMore)),
{
}

/// A signal that nobody waits for in particular goes into the queue of the first rule that it
/// agrees with, and is ignored where there is none or the queue does not take it.
pub proof fn law_signals_are_queued_or_ignored<'a, R>(
    table: Map<Seq<Seq<char>>, CallHandler>,
    rule_list: Seq<MatchView>,
    channels: Seq<int>,
    slots: Map<u32, R>,
    wanted: Wanted<'a>,
    msg: MessageView,
    result: Result<Event<R>, RecvError>,
    slots_after: Map<u32, R>,
)
    requires
        handled(table, rule_list, channels, slots, wanted, msg, result, slots_after),
        msg.typ is Signal,
    ensures
        slots_after == slots,
        result matches Ok(event) && match event {
            Event::Wanted(signal) => signal@ == msg,
            Event::Queued => exists|i: int|
                {
                    &&& 0 <= i < rule_list.len()
                    &&& #[trigger] rules::rule_matches(rule_list[i], msg)
                    &&& queue::offered(channels[i], msg, true)
                    &&& forall|j: int|
                        0 <= j < i ==> !rules::rule_matches(#[trigger] rule_list[j], msg)
                },
            Event::Ignored(back) => back@ == msg && forall|i: int|
                {
                    &&& 0 <= i < rule_list.len()
                    &&& #[trigger] rules::rule_matches(rule_list[i], msg)
                    &&& forall|j: int|
                        0 <= j < i ==> !rules::rule_matches(#[trigger] rule_list[j], msg)
                } ==> queue::offered(channels[i], msg, false),
            _ => false,
        },
{
    rules::lemma_first_matching(rule_list, msg);
    if let Some(i) = rules::first_matching(rule_list, msg) {
        assert(rules::rule_matches(rule_list[i], msg));
    }
}

/// A call is answered unless the lowest bit of its flags is set, and nothing else is answered.
pub proof fn law_lowest_flag_means_no_reply(msg: MessageView)
    ensures
        wants_reply(msg) <==> msg.typ is Call && msg.flags % 2 == 0,
{
    let flags = msg.flags;
    assert(flags & 1u8 == 0 <==> flags % 2 == 0) by (bit_vector);
}

/// The serial behind another one is the next number, and behind the last one comes one: zero is
/// never handed out.
pub proof fn law_serials_count_up(serial: u32, count: nat)
    requires
        serial != 0,
    ensures
        later_serial(serial, 0) == serial,
        later_serial(serial, count + 1) != 0,
        later_serial(serial, count) < u32::MAX ==> later_serial(serial, count + 1) == later_serial(
            serial,
            count,
        ) + 1,
        later_serial(serial, count) == u32::MAX ==> later_serial(serial, count + 1) == 1,
{
    lemma_later_serial(serial, count + 1);
}

// ---------------------------------------------------------------------------
// What the daemon says
// ---------------------------------------------------------------------------

/// The types in the signature of the body are its characters, each alone.
pub open spec fn typed_alone(b: BodyView) -> bool {
    wire_format::parsed_signature(b.sig) == Ok::<Seq<Seq<char>>, wire_format::SignatureError>(
        wire_format::each_alone(b.sig),
    )
}

/// An answer whose only parameter is a text is understood as that text, and not as a number or
/// as two texts.
pub proof fn law_text_answer_is_understood<'a>(s: &'a str, order: ByteOrder, b: BodyView)
    requires
        body::pushed(body::empty_body(order), s, b, Ok(())),
        typed_alone(b),
        vstd::utf8::encode_utf8(s@).len() <= u32::MAX,
        !s@.contains('\0'),
    ensures
        first_text(b) == Some(s@),
        first_number(b) is None,
        first_text_pair(b) is None,
        error_text(b) == s@,
{
    assert(b.sig =~= seq!['s']);
    assert(wire_format::each_alone(b.sig)[0] =~= seq!['s']);
    assert(seq!['s'][0] == 's' && seq!['u'][0] == 'u');
    assert(first_type(b) == Some(seq!['s']));
    assert(seq!['s'] != seq!['u']);
    assert(seq!['s'].len() != seq!['(', 's', 's', ')'].len());
    round_trip::law_text_read_back(seq![], s@, order, seq![]);
    assert(b.buf + seq![] =~= b.buf);
}

/// An answer whose only parameter is a number is understood as that number, and not as text.
pub proof fn law_number_answer_is_understood(n: u32, order: ByteOrder, b: BodyView)
    requires
        body::pushed(body::empty_body(order), n, b, Ok(())),
        typed_alone(b),
    ensures
        first_number(b) == Some(n),
        first_text(b) is None,
        first_text_pair(b) is None,
        error_text(b) == "Unknown DBus Error Type!"@,
{
    assert(b.sig =~= seq!['u']);
    assert(wire_format::each_alone(b.sig)[0] =~= seq!['u']);
    assert(seq!['s'][0] == 's' && seq!['u'][0] == 'u');
    assert(first_type(b) == Some(seq!['u']));
    assert(seq!['s'] != seq!['u']);
    assert(seq!['u'].len() != seq!['(', 's', 's', ')'].len());
    round_trip::law_u32_read_back(seq![], n, order, seq![]);
    assert(b.buf + seq![] =~= b.buf);
}

/// An answer whose only parameter is a structure of two texts is understood as these two, and
/// they stand in the message of a refused connection in this order.
pub proof fn law_refusal_names_error_and_details<'a>(
    error: &'a str,
    details: &'a str,
    order: ByteOrder,
    texts: BodyView,
    b: BodyView,
)
    requires
        body::pushed2(body::empty_body(order), error, details, texts, Ok(())),
        b.buf == texts.buf,
        b.byteorder == order,
        b.sig == "(ss)"@,
        wire_format::parsed_signature(b.sig) == Ok::<Seq<Seq<char>>, wire_format::SignatureError>(
            seq![b.sig],
        ),
        vstd::utf8::encode_utf8(error@).len() <= u32::MAX,
        vstd::utf8::encode_utf8(details@).len() <= u32::MAX,
        !error@.contains('\0'),
        !details@.contains('\0'),
    ensures
        first_text_pair(b) == Some((error@, details@)),
        refusal_text(b) == "Hello message failed with: "@ + error@ + ": "@ + details@,
{
    reveal_strlit("(ss)");
    assert(b.sig =~= seq!['(', 's', 's', ')']);
    let (middle, first) = choose|middle: BodyView, first: Result<(), MarshalError>|
        {
            &&& #[trigger] body::pushed(body::empty_body(order), error, middle, first)
            &&& if first is Ok {
                body::pushed(middle, details, texts, Ok(()))
            } else {
                texts == middle && Ok::<(), MarshalError>(()) == first
            }
        };
    lemma_text_pair(middle.buf, texts.buf, error@, details@, order);
    assert(first_type(b) == Some(b.sig));
}

#[verifier::spinoff_prover]
proof fn lemma_text_pair(
    middle: Seq<u8>,
    buf: Seq<u8>,
    first: Seq<char>,
    second: Seq<char>,
    order: ByteOrder,
)
    requires
        middle == wire_format::padded(seq![], 4) + wire_format::string_bytes(first, order),
        buf == wire_format::padded(middle, 4) + wire_format::string_bytes(second, order),
        vstd::utf8::encode_utf8(first).len() <= u32::MAX,
        vstd::utf8::encode_utf8(second).len() <= u32::MAX,
        !first.contains('\0'),
        !second.contains('\0'),
    ensures
        marshal::text_pair_at(buf, 0, order) == Ok::<
            (int, Seq<char>, Seq<char>),
            wire_format::UnmarshalError,
        >((buf.len() as int, first, second)),
{
    assert(marshal::aligned_string_at(buf, 0, order) == Ok::<
        (int, Seq<char>),
        wire_format::UnmarshalError,
    >((middle.len() as int, first))) by {
        utils::lemma_align_up(middle.len() as int, 4);
        let rest = wire_format::zeros(utils::align_up(middle.len() as int, 4) - middle.len())
            + wire_format::string_bytes(second, order);
        assert(buf =~= middle + rest);
        round_trip::law_text_read_back(seq![], first, order, rest);
    }
    assert(marshal::aligned_string_at(buf, middle.len() as int, order) == Ok::<
        (int, Seq<char>),
        wire_format::UnmarshalError,
    >((buf.len() as int, second))) by {
        round_trip::law_text_read_back(middle, second, order, seq![]);
        assert(buf + seq![] =~= buf);
    }
    assert(wire_format::aligned_at(buf, 0, 8) == Ok::<int, wire_format::UnmarshalError>(0)) by {
        assert(utils::align_up(0, 8) == 0);
    }
}

/// A refusal whose parameters are something else says so.
pub proof fn law_other_refusals_say_so(b: BodyView)
    requires
        first_text_pair(b) is None,
    ensures
        refusal_text(b) == "Hello message failed with: "@ + "Unable to parse message"@ + ": "@
            + ""@,
{
}

// ---------------------------------------------------------------------------
// Adding and removing rules
// ---------------------------------------------------------------------------

/// A rule that was added is in the list, and so are all others, each with the queue that it had.
pub proof fn law_added_rule_joins_the_others(
    before: RuleSet,
    rule: MatchView,
    after: RuleSet,
    i: int,
)
    requires
        rule_added(before, rule, after),
        0 <= i < before@.len(),
    ensures
        after@.len() == before@.len() + 1,
        after@.contains(rule),
        exists|j: int|
            0 <= j < after@.len() && #[trigger] after@[j] == before@[i] && after.queues()[j]
                == before.queues()[i],
{
    rules::lemma_rule_position(before@, rule);
    let k = rules::rule_position(before@, rule);
    assert(after@[k] == rule);
    if i < k {
        assert(after@[i] == before@[i]);
        assert(after.queues()[i] == before.queues()[i]);
    } else {
        assert(after@[i + 1] == before@[i]);
        assert(after.queues()[i + 1] == before.queues()[i]);
    }
}

/// A rule that was removed leaves the others, each with the queue that it had. Where it was not
/// there, nothing changes.
pub proof fn law_removed_rule_leaves_the_others(
    before: RuleSet,
    rule: MatchView,
    after: RuleSet,
    i: int,
)
    requires
        rule_removed(before, rule, after),
        0 <= i < before@.len(),
        before@[i] != rule,
    ensures
        before@.contains(rule) ==> after@.len() == before@.len() - 1,
        !before@.contains(rule) ==> after == before,
        exists|j: int|
            0 <= j < after@.len() && #[trigger] after@[j] == before@[i] && after.queues()[j]
                == before.queues()[i],
{
    if before@.contains(rule) {
        let k = choose|k: int|
            0 <= k < before@.len() && #[trigger] before@[k] == rule && after@ == before@.remove(k)
                && after.queues() == before.queues().remove(k);
        if i < k {
            assert(after@[i] == before@[i]);
            assert(after.queues()[i] == before.queues()[i]);
        } else {
            assert(after@[i - 1] == before@[i]);
            assert(after.queues()[i - 1] == before.queues()[i]);
        }
    } else {
        assert(after@[i] == before@[i]);
    }
}

/// The description that answers a call lists the known paths directly below the object, but for
/// those whose calls are dropped.
pub proof fn law_description_names_the_children<'a, R>(
    table: Map<Seq<Seq<char>>, CallHandler>,
    rule_list: Seq<MatchView>,
    channels: Seq<int>,
    slots: Map<u32, R>,
    wanted: Wanted<'a>,
    msg: MessageView,
    result: Result<Event<R>, RecvError>,
    slots_after: Map<u32, R>,
)
    requires
        handled(table, rule_list, channels, slots, wanted, msg, result, slots_after),
    ensures
        result matches Ok(Event::Answer(answer)) ==> (answer@.typ is Reply ==> exists|names: Seq<Seq<char>>|
            {
                &&& #[trigger] hierarchy::listed(
                    table,
                    path::elements(msg.dynheader.object->Some_0),
                    names,
                )
                &&& answer@.body.sig == seq!['s']
                &&& answer@.body.fds.len() == 0
                &&& {
                    let description = replies::INTRO_START@ + replies::node_lines(names)
                        + " </node>"@;
                    vstd::utf8::encode_utf8(description).len() <= u32::MAX
                        ==> header::text_stands_at(
                        answer@.body.buf,
                        0,
                        description,
                        ByteOrder::LittleEndian,
                    )
                }
            }),
{
    if let Ok(Event::Answer(answer)) = result {
        if answer@.typ is Reply {
            let object = path::elements(msg.dynheader.object->Some_0);
            let names = choose|names: Seq<Seq<char>>|
                {
                    &&& #[trigger] hierarchy::listed(table, object, names)
                    &&& answer@ == replies::intro_reply(msg.dynheader, names)
                };
            replies::law_description_lists_the_children(names);
            if vstd::utf8::encode_utf8(replies::intro_text(names)).len() <= u32::MAX {
                replies::law_intro_reply_is_addressed(msg.dynheader, names);
            }
            assert(hierarchy::listed(table, object, names));
        }
    }
}

/// The first parameter is taken for text, for a number or for two texts only if its type says so,
/// and none is taken for two of these.
pub proof fn law_first_parameter_is_taken_by_type(b: BodyView, types: Seq<Seq<char>>)
    requires
        b.sig.len() > 0,
        wire_format::parsed_signature(b.sig) == Ok::<Seq<Seq<char>>, wire_format::SignatureError>(
            types,
        ),
    ensures
        first_text(b) is Some ==> types.len() > 0 && types[0] == "s"@,
        first_number(b) is Some ==> types.len() > 0 && types[0] == "u"@,
        first_text_pair(b) is Some ==> types.len() > 0 && types[0] == "(ss)"@,
        first_text(b) is None || first_number(b) is None,
        first_text(b) is None || first_text_pair(b) is None,
        first_number(b) is None || first_text_pair(b) is None,
{
    reveal_strlit("s");
    reveal_strlit("u");
    reveal_strlit("(ss)");
    assert("s"@ =~= seq!['s']);
    assert("u"@ =~= seq!['u']);
    assert("(ss)"@ =~= seq!['(', 's', 's', ')']);
    assert(seq!['s'][0] != seq!['u'][0]);
    assert(seq!['s'].len() != seq!['(', 's', 's', ')'].len());
}

/// A body without parameters holds no text and no number.
pub proof fn law_no_parameter_no_value(b: BodyView)
    requires
        b.sig.len() == 0,
    ensures
        first_text(b) is None,
        first_number(b) is None,
        first_text_pair(b) is None,
        error_text(b) == "Unknown DBus Error Type!"@,
{
}

/// The answer to a call that arrives on the stream is handed out to whoever waits for it exactly
/// as it was sent, and the message behind it is the next one.
pub proof fn law_sent_answer_reaches_the_call<R>(
    table: Map<Seq<Seq<char>>, CallHandler>,
    rule_list: Seq<MatchView>,
    channels: Seq<int>,
    slots: Map<u32, R>,
    n: Serial,
    msg: MessageView,
    serial: u32,
    with_fd: bool,
    fds: Seq<UnixFd>,
    rest: Seq<u8>,
    result: Result<Event<R>, RecvError>,
    slots_after: Map<u32, R>,
)
    requires
        msg.typ is Reply || msg.typ is Error,
        msg.dynheader.response_serial == Some(n@),
        n@ != 0,
        message_builder::valid_fields(msg.dynheader),
        round_trip::sendable(msg, serial),
        serial != 0,
        msg.body.fds.len() == 0 || with_fd,
        fds.len() == msg.body.fds.len(),
    ensures
        recv::frame(recv::message_bytes(msg, serial) + rest, with_fd) matches Frame::Complete {
            hdr,
            dynhdr,
            body: bytes,
            end,
        } && {
            &&& recv::announced_fds(dynhdr) == fds.len()
            &&& (recv::message_bytes(msg, serial) + rest).skip(end) == rest
            &&& handled(
                table,
                rule_list,
                channels,
                slots,
                Wanted::Response(n),
                recv::received_message(hdr, dynhdr, bytes, fds),
                result,
                slots_after,
            ) ==> (result matches Ok(Event::Wanted(answer)) && recv::is_as_sent(
                answer@,
                msg,
                serial,
                fds,
            ) && slots_after == slots)
        },
{
    recv::law_message_is_received_as_sent(msg, serial, with_fd, fds, rest);
    if let Frame::Complete { hdr, dynhdr, body: bytes, .. } = recv::frame(
        recv::message_bytes(msg, serial) + rest,
        with_fd,
    ) {
        let got = recv::received_message(hdr, dynhdr, bytes, fds);
        if handled(
            table,
            rule_list,
            channels,
            slots,
            Wanted::Response(n),
            got,
            result,
            slots_after,
        ) {
            law_wanted_answer_is_for_the_call(
                table,
                rule_list,
                channels,
                slots,
                n,
                got,
                result,
                slots_after,
            );
        }
    }
}

} // verus!
