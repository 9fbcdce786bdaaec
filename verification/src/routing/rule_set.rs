//! The rules whose signals are received.
use vstd::prelude::*;

use super::queue;
use super::queue::MsgQueue;
use super::rules;
use super::rules::{Match, MatchView};
use crate::rustbus_core::message_builder::MarshalledMessage;

verus! {

/// What the rules in a list ask for.
pub open spec fn rule_views(list: Seq<Match>) -> Seq<MatchView> {
    list.map_values(|r: Match| r@)
}

/// The first rule that a message matches.
pub(crate) fn first_match(list: &[Match], msg: &MarshalledMessage) -> (index: Option<usize>)
    ensures
        match index {
            Some(i) => rules::first_matching(rule_views(list@), msg@) == Some(i as int) && i
                < list@.len(),
            None => rules::first_matching(rule_views(list@), msg@) is None,
        },
{
    let ghost views = rule_views(list@);
    let mut i: usize = 0;
    while i < list.len()
        invariant
            i <= list@.len(),
            views == rule_views(list@),
            forall|j: int| 0 <= j < i ==> !rules::rule_matches(#[trigger] views[j], msg@),
        decreases list@.len() - i,
    {
        assert(views[i as int] == list@[i as int]@);
        if list[i].matches(msg) {
            proof {
                rules::lemma_first_matching(views, msg@);
            }
            return Some(i);
        }
        i += 1;
    }
    proof {
        rules::lemma_first_matching(views, msg@);
    }
    None
}

/// Puts a signal into the queue of the first rule that it matches. It comes back where it
/// matches none, or where that queue was closed.
pub fn queue_sig(sig_matches: &[Match], sig: MarshalledMessage) -> (left: Option<MarshalledMessage>)
    requires
        rules::first_matching(rule_views(sig_matches@), sig@) matches Some(i)
            ==> sig_matches@[i].queue is Some,
    ensures
        match rules::first_matching(rule_views(sig_matches@), sig@) {
            Some(i) => queue::offered(
                sig_matches@[i].queue->Some_0.channel(),
                sig@,
                left is None,
            ),
            None => left is Some,
        },
        left matches Some(back) ==> back == sig,
{
    match first_match(sig_matches, &sig) {
        Some(i) => match &sig_matches[i].queue {
            Some(queue) => match queue.send(sig) {
                Ok(()) => None,
                Err(back) => Some(back),
            },
            None => Some(sig),
        },
        None => Some(sig),
    }
}

/// The rules whose signals are received, the more specific ones first, each with its queue.
#[derive(Debug)]
pub struct RuleSet {
    list: Vec<Match>,
}

impl View for RuleSet {
    type V = Seq<MatchView>;

    closed spec fn view(&self) -> Seq<MatchView> {
        rule_views(self.list@)
    }
}

impl RuleSet {
    #[verifier::type_invariant]
    spec fn inv(self) -> bool {
        &&& rules::ordered(rule_views(self.list@))
        &&& forall|i: int| 0 <= i < self.list@.len() ==> (#[trigger] self.list@[i]).queue is Some
    }

    /// The queue of the rule at a position.
    pub closed spec fn queue_at(self, i: int) -> MsgQueue {
        self.list@[i].queue->Some_0
    }

    /// The queues of the rules.
    pub open spec fn queues(self) -> Seq<MsgQueue> {
        Seq::new(self@.len(), |i: int| self.queue_at(i))
    }

    /// The channels behind the queues of the rules.
    pub open spec fn channels(self) -> Seq<int> {
        Seq::new(self@.len(), |i: int| self.queue_at(i).channel())
    }

    /// No rules.
    pub fn new() -> (set: Self)
        ensures
            set@ == Seq::<MatchView>::empty(),
            rules::ordered(set@),
    {
        let set = RuleSet { list: Vec::new() };
        assert(set@ =~= Seq::<MatchView>::empty());
        set
    }

    /// The position of a rule.
    fn find(&self, rule: &Match) -> (index: Option<usize>)
        ensures
            match index {
                Some(i) => i < self.list@.len() && self@[i as int] == rule@ && (forall|j: int|
                    0 <= j < i ==> #[trigger] self@[j] != rule@),
                None => !self@.contains(rule@),
            },
    {
        let mut i: usize = 0;
        while i < self.list.len()
            invariant
                i <= self.list@.len(),
                forall|j: int| 0 <= j < i ==> #[trigger] self@[j] != rule@,
            decreases self.list@.len() - i,
        {
            assert(self@[i as int] == self.list@[i as int]@);
            if self.list[i] == *rule {
                return Some(i);
            }
            i += 1;
        }
        None
    }

    /// Adds a rule, with a new queue of its own. The other rules keep theirs. Nothing changes
    /// where the rule is there already.
    pub fn insert(&mut self, rule: &Match) -> (added: bool)
        requires
            !(rule.path is Some && rule.path_namespace is Some),
        ensures
            added == !old(self)@.contains(rule@),
            !added ==> *final(self) == *old(self),
            added ==> {
                let k = rules::rule_position(old(self)@, rule@);
                &&& final(self)@ == old(self)@.insert(k, rule@)
                &&& final(self).queues() == old(self).queues().insert(k, final(self).queue_at(k))
                &&& queue::limit(final(self).queue_at(k).channel()) is None
            },
            rules::ordered(final(self)@),
    {
        proof {
            use_type_invariant(&*self);
        }
        match self.find(rule) {
            Some(i) => {
                proof {
                    assert(self@[i as int] == rule@);
                }
                return false;
            },
            None => {},
        }
        let ghost views = self@;
        let mut i: usize = 0;
        while i < self.list.len() && !rule.goes_before(&self.list[i])
            invariant
                i <= self.list@.len(),
                views == rule_views(self.list@),
                self@ == views,
                forall|j: int|
                    0 <= j < i ==> !(rules::settled(rule@, #[trigger] views[j])
                        && rules::rule_before(rule@, views[j])),
            decreases self.list@.len() - i,
        {
            assert(views[i as int] == self.list@[i as int]@);
            i += 1;
        }
        proof {
            use_type_invariant(&*self);
            rules::lemma_rule_position(views, rule@);
            let k = rules::rule_position(views, rule@);
            if i < self.list@.len() {
                assert(views[i as int] == self.list@[i as int]@);
            }
            if k < i {
                assert(rules::settled(rule@, views[k]));
            }
            assert(k == i);
            rules::law_insert_keeps_order(views, rule@);
        }
        let mut to_insert = rule.clone();
        to_insert.queue = Some(MsgQueue::new());
        let mut list: Vec<Match> = Vec::new();
        assert(rule_views(list@) =~= Seq::<MatchView>::empty());
        std::mem::swap(&mut list, &mut self.list);
        let ghost before = list@;
        list.insert(i, to_insert);
        proof {
            assert(rule_views(list@) =~= views.insert(i as int, rule@));
            assert forall|j: int| 0 <= j < list@.len() implies (
            #[trigger] list@[j]).queue is Some by {
                if j < i {
                    assert(list@[j] == before[j]);
                } else if j > i {
                    assert(list@[j] == before[j - 1]);
                }
            }
        }
        self.list = list;
        proof {
            let k = i as int;
            assert(self.queues() =~= old(self).queues().insert(k, self.queue_at(k))) by {
                assert forall|j: int| 0 <= j < self.queues().len() implies self.queues()[j]
                    == old(self).queues().insert(k, self.queue_at(k))[j] by {
                    if j < k {
                        assert(self.list@[j] == before[j]);
                    } else if j > k {
                        assert(self.list@[j] == before[j - 1]);
                    }
                }
            }
        }
        true
    }

    /// Takes a rule away, together with its queue. The other rules keep theirs. Returns whether
    /// it was there.
    pub fn remove(&mut self, rule: &Match) -> (removed: bool)
        ensures
            removed == old(self)@.contains(rule@),
            !removed ==> *final(self) == *old(self),
            removed ==> exists|i: int|
                0 <= i < old(self)@.len() && #[trigger] old(self)@[i] == rule@ && final(self)@
                    == old(self)@.remove(i) && final(self).queues() == old(self).queues().remove(i),
            rules::ordered(final(self)@),
    {
        proof {
            use_type_invariant(&*self);
        }
        match self.find(rule) {
            Some(i) => {
                let ghost views = self@;
                proof {
                    rules::law_remove_keeps_order(views, i as int);
                    assert(views[i as int] == rule@);
                }
                let mut list: Vec<Match> = Vec::new();
                assert(rule_views(list@) =~= Seq::<MatchView>::empty());
                std::mem::swap(&mut list, &mut self.list);
                let ghost before = list@;
                list.remove(i);
                proof {
                    assert(rule_views(list@) =~= views.remove(i as int));
                    assert forall|j: int| 0 <= j < list@.len() implies (
                    #[trigger] list@[j]).queue is Some by {
                        if j < i {
                            assert(list@[j] == before[j]);
                        } else {
                            assert(list@[j] == before[j + 1]);
                        }
                    }
                }
                self.list = list;
                proof {
                    let k = i as int;
                    assert forall|j: int| 0 <= j < self.queues().len() implies self.queues()[j]
                        == old(self).queues().remove(k)[j] by {
                        if j < k {
                            assert(self.list@[j] == before[j]);
                        } else {
                            assert(self.list@[j] == before[j + 1]);
                        }
                    }
                    assert(self.queues() =~= old(self).queues().remove(k));
                    assert(old(self)@[k] == rule@);
                }
                true
            },
            None => false,
        }
    }

    /// The queue of a rule, if it is there.
    pub fn get_queue(&self, rule: &Match) -> (queue: Option<&MsgQueue>)
        ensures
            match queue {
                Some(queue) => exists|i: int|
                    0 <= i < self@.len() && #[trigger] self@[i] == rule@ && self.queue_at(i)
                        == *queue,
                None => !self@.contains(rule@),
            },
    {
        proof {
            use_type_invariant(self);
        }
        match self.find(rule) {
            Some(i) => {
                assert(self.list@[i as int].queue is Some);
                assert(self@[i as int] == rule@);
                self.list[i].queue.as_ref()
            },
            None => None,
        }
    }

    /// The rules.
    pub fn as_slice(&self) -> (list: &[Match])
        ensures
            rule_views(list@) == self@,
            rules::ordered(self@),
            forall|i: int| 0 <= i < list@.len() ==> #[trigger] list@[i].queue == Some(
                self.queue_at(i),
            ),
    {
        proof {
            use_type_invariant(self);
        }
        self.list.as_slice()
    }
}

} // verus!
