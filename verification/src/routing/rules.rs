//! Rules that say which signals are received, and the order in which they are tried.
use std::cmp::Ordering;

use vstd::prelude::*;
use vstd::utf8::*;

use super::queue::MsgQueue;
use crate::rustbus_core::message_builder::header;
use crate::rustbus_core::message_builder::{MarshalledMessage, MessageView};
use crate::rustbus_core::path;
use crate::rustbus_core::MessageType;
use crate::text;

verus! {

/// A rule that signals match. A field that is not set matches every signal.
#[derive(Debug)]
pub struct Match {
    pub sender: Option<String>,
    pub path: Option<String>,
    pub path_namespace: Option<String>,
    pub interface: Option<String>,
    pub member: Option<String>,
    pub queue: Option<MsgQueue>,
}

/// What a rule asks for.
#[verifier::ext_equal]
pub struct MatchView {
    pub sender: Option<Seq<char>>,
    pub path: Option<Seq<char>>,
    pub path_namespace: Option<Seq<char>>,
    pub interface: Option<Seq<char>>,
    pub member: Option<Seq<char>>,
}

impl View for Match {
    type V = MatchView;

    open spec fn view(&self) -> MatchView {
        MatchView {
            sender: header::opt_text(self.sender),
            path: header::opt_text(self.path),
            path_namespace: header::opt_text(self.path_namespace),
            interface: header::opt_text(self.interface),
            member: header::opt_text(self.member),
        }
    }
}

/// The rule that every signal matches.
pub open spec fn empty_match() -> MatchView {
    MatchView { sender: None, path: None, path_namespace: None, interface: None, member: None }
}

/// A field of a rule, if it is set, is that of the signal.
pub open spec fn field_matches(wanted: Option<Seq<char>>, field: Option<Seq<char>>) -> bool {
    wanted is Some ==> field == wanted
}

/// Whether a message is a signal that matches the rule.
pub open spec fn rule_matches(rule: MatchView, msg: MessageView) -> bool {
    &&& msg.typ is Signal
    &&& field_matches(rule.sender, msg.dynheader.sender)
    &&& field_matches(rule.path, msg.dynheader.object)
    &&& rule.path_namespace matches Some(namespace) ==> (msg.dynheader.object matches Some(object)
        && path::path_starts_with(object, namespace))
    &&& field_matches(rule.interface, msg.dynheader.interface)
    &&& field_matches(rule.member, msg.dynheader.member)
}

/// A rule text with one more part behind it, where the field is set.
pub open spec fn with_part(s: Seq<char>, key: Seq<char>, value: Option<Seq<char>>) -> Seq<char> {
    match value {
        None => s,
        Some(value) => (if s.len() == 0 {
            s
        } else {
            s.push(',')
        }) + key + seq!['=', '\''] + value + seq!['\''],
    }
}

/// The rule as text, in the form in which the daemon is asked for signals.
pub open spec fn rule_text(rule: MatchView) -> Seq<char> {
    with_part(
        with_part(
            with_part(
                with_part(
                    with_part(seq![], "sender"@, rule.sender),
                    "path"@,
                    rule.path,
                ),
                "path_namespace"@,
                rule.path_namespace,
            ),
            "interface"@,
            rule.interface,
        ),
        "member"@,
        rule.member,
    )
}

// ---------------------------------------------------------------------------
// The order of rules
// ---------------------------------------------------------------------------

/// Byte strings in the order of a dictionary.
pub open spec fn bytes_before(a: Seq<u8>, b: Seq<u8>) -> bool
    decreases a.len(),
{
    if b.len() == 0 {
        false
    } else if a.len() == 0 {
        true
    } else if a[0] == b[0] {
        bytes_before(a.skip(1), b.skip(1))
    } else {
        a[0] < b[0]
    }
}

/// The first of two comparisons that tells a difference.
pub open spec fn or_else(first: Ordering, second: Ordering) -> Ordering {
    match first {
        Ordering::Equal => second,
        _ => first,
    }
}

/// A field that is set comes before one that is not.
pub open spec fn presence_order(a: Option<Seq<char>>, b: Option<Seq<char>>) -> Ordering {
    match (a, b) {
        (Some(_), None) => Ordering::Less,
        (None, Some(_)) => Ordering::Greater,
        _ => Ordering::Equal,
    }
}

/// One path lies below the other.
pub open spec fn below(a: Seq<char>, b: Seq<char>) -> bool {
    &&& path::components_of(b).len() < path::components_of(a).len()
    &&& path::components_of(b).is_prefix_of(path::components_of(a))
}

/// A namespace comes before the one that it lies in.
pub open spec fn namespace_order(a: Option<Seq<char>>, b: Option<Seq<char>>) -> Ordering {
    match (a, b) {
        (Some(a), Some(b)) => if below(a, b) {
            Ordering::Less
        } else if below(b, a) {
            Ordering::Greater
        } else {
            Ordering::Equal
        },
        _ => presence_order(a, b),
    }
}

/// Two fields in the order of a dictionary.
pub open spec fn text_order(a: Option<Seq<char>>, b: Option<Seq<char>>) -> Ordering {
    match (a, b) {
        (None, None) => Ordering::Equal,
        (None, Some(_)) => Ordering::Less,
        (Some(_), None) => Ordering::Greater,
        (Some(a), Some(b)) => if a == b {
            Ordering::Equal
        } else if bytes_before(encode_utf8(a), encode_utf8(b)) {
            Ordering::Less
        } else {
            Ordering::Greater
        },
    }
}

/// The order of the texts in two rules.
pub open spec fn texts_order(a: MatchView, b: MatchView) -> Ordering {
    or_else(
        text_order(a.sender, b.sender),
        or_else(
            text_order(a.path, b.path),
            or_else(
                text_order(a.path_namespace, b.path_namespace),
                or_else(text_order(a.interface, b.interface), text_order(a.member, b.member)),
            ),
        ),
    )
}

/// The order of rules: the more specific one comes first.
pub open spec fn rule_order(a: MatchView, b: MatchView) -> Ordering {
    or_else(
        presence_order(a.sender, b.sender),
        or_else(
            presence_order(a.path, b.path),
            or_else(
                namespace_order(a.path_namespace, b.path_namespace),
                or_else(
                    presence_order(a.interface, b.interface),
                    or_else(presence_order(a.member, b.member), texts_order(a, b)),
                ),
            ),
        ),
    )
}

/// The rule `a` comes before the rule `b`.
pub open spec fn rule_before(a: MatchView, b: MatchView) -> bool {
    rule_order(a, b) is Less
}

/// One of the namespaces lies in the other, or they are the same.
pub open spec fn nested(a: Seq<char>, b: Seq<char>) -> bool {
    path::components_of(a).is_prefix_of(path::components_of(b)) || path::components_of(
        b,
    ).is_prefix_of(path::components_of(a))
}

/// Which of two rules is more specific does not hang on the texts of unrelated namespaces.
pub open spec fn settled(a: MatchView, b: MatchView) -> bool {
    ||| (a.sender is Some) != (b.sender is Some)
    ||| (a.path is Some) != (b.path is Some)
    ||| a.path_namespace is None
    ||| b.path_namespace is None
    ||| nested(a.path_namespace->Some_0, b.path_namespace->Some_0)
}

/// Of two rules that a signal can match, the more specific one stands first.
pub open spec fn ordered(rules: Seq<MatchView>) -> bool {
    forall|i: int, j: int|
        #![trigger rules[i], rules[j]]
        0 <= i < j < rules.len() && settled(rules[i], rules[j]) ==> rule_before(rules[i], rules[j])
}

/// Where a rule belongs: before the first one that is less specific.
pub open spec fn rule_position(rules: Seq<MatchView>, rule: MatchView) -> int
    decreases rules.len(),
{
    if rules.len() == 0 || (settled(rule, rules[0]) && rule_before(rule, rules[0])) {
        0
    } else {
        1 + rule_position(rules.skip(1), rule)
    }
}

/// The first rule that a message matches.
pub open spec fn first_matching(rules: Seq<MatchView>, msg: MessageView) -> Option<int>
    decreases rules.len(),
{
    if rules.len() == 0 {
        None
    } else if rule_matches(rules[0], msg) {
        Some(0)
    } else {
        match first_matching(rules.skip(1), msg) {
            Some(i) => Some(i + 1),
            None => None,
        }
    }
}

// ---------------------------------------------------------------------------
// Facts about the order
// ---------------------------------------------------------------------------

proof fn lemma_bytes_before(a: Seq<u8>, b: Seq<u8>)
    ensures
        !(bytes_before(a, b) && bytes_before(b, a)),
        a != b ==> bytes_before(a, b) || bytes_before(b, a),
        a == b ==> !bytes_before(a, b),
    decreases a.len(),
{
    if a.len() > 0 && b.len() > 0 && a[0] == b[0] {
        lemma_bytes_before(a.skip(1), b.skip(1));
        if a.skip(1) == b.skip(1) {
            assert(a =~= seq![a[0]] + a.skip(1));
            assert(b =~= seq![b[0]] + b.skip(1));
        }
    } else if a.len() == 0 && b.len() == 0 {
        assert(a =~= b);
    }
}

proof fn lemma_bytes_before_transitive(a: Seq<u8>, b: Seq<u8>, c: Seq<u8>)
    requires
        bytes_before(a, b),
        bytes_before(b, c),
    ensures
        bytes_before(a, c),
    decreases a.len(),
{
    if a.len() > 0 && a[0] == b[0] && b[0] == c[0] {
        lemma_bytes_before_transitive(a.skip(1), b.skip(1), c.skip(1));
    }
}

proof fn lemma_text_order(a: Option<Seq<char>>, b: Option<Seq<char>>)
    ensures
        text_order(a, b) is Equal <==> a == b,
        text_order(a, b) is Less <==> text_order(b, a) is Greater,
{
    if let (Some(x), Some(y)) = (a, b) {
        lemma_bytes_before(encode_utf8(x), encode_utf8(y));
        if encode_utf8(x) == encode_utf8(y) {
            text::lemma_encode_utf8_injective(x, y);
        }
    }
}

/// Three comparisons that could be those of three things in a row.
spec fn consistent(ab: Ordering, bc: Ordering, ac: Ordering) -> bool {
    &&& ab is Less && bc is Less ==> ac is Less
    &&& ab is Greater && bc is Greater ==> ac is Greater
    &&& ab is Equal ==> ac == bc
    &&& bc is Equal ==> ac == ab
}

proof fn lemma_text_consistent(a: Option<Seq<char>>, b: Option<Seq<char>>, c: Option<Seq<char>>)
    ensures
        consistent(text_order(a, b), text_order(b, c), text_order(a, c)),
{
    lemma_text_order(a, b);
    lemma_text_order(b, c);
    lemma_text_order(a, c);
    if let (Some(x), Some(y)) = (a, b) {
        if let Some(z) = c {
            let (p, q, r) = (encode_utf8(x), encode_utf8(y), encode_utf8(z));
            lemma_bytes_before(p, q);
            lemma_bytes_before(q, r);
            lemma_bytes_before(p, r);
            if bytes_before(p, q) && bytes_before(q, r) {
                lemma_bytes_before_transitive(p, q, r);
            }
            if bytes_before(q, p) && bytes_before(r, q) {
                lemma_bytes_before_transitive(r, q, p);
            }
            if p == r {
                text::lemma_encode_utf8_injective(x, z);
            }
            if p == q {
                text::lemma_encode_utf8_injective(x, y);
            }
            if q == r {
                text::lemma_encode_utf8_injective(y, z);
            }
        }
    }
}

proof fn lemma_texts_consistent(a: MatchView, b: MatchView, c: MatchView)
    ensures
        consistent(texts_order(a, b), texts_order(b, c), texts_order(a, c)),
{
    lemma_text_consistent(a.sender, b.sender, c.sender);
    lemma_text_consistent(a.path, b.path, c.path);
    lemma_text_consistent(a.path_namespace, b.path_namespace, c.path_namespace);
    lemma_text_consistent(a.interface, b.interface, c.interface);
    lemma_text_consistent(a.member, b.member, c.member);
}

proof fn lemma_namespace_consistent(
    a: Option<Seq<char>>,
    b: Option<Seq<char>>,
    c: Option<Seq<char>>,
)
    requires
        a is Some && b is Some ==> nested(a->Some_0, b->Some_0),
        b is Some && c is Some ==> nested(b->Some_0, c->Some_0),
        a is Some && c is Some ==> nested(a->Some_0, c->Some_0),
    ensures
        consistent(namespace_order(a, b), namespace_order(b, c), namespace_order(a, c)),
{
}

/// The order of rules is that of a list, where it is settled.
pub proof fn law_order_transitive(a: MatchView, b: MatchView, c: MatchView)
    requires
        settled(a, b),
        settled(b, c),
        settled(a, c),
        rule_before(a, b),
        rule_before(b, c),
    ensures
        rule_before(a, c),
{
    lemma_texts_consistent(a, b, c);
    let same = (a.sender is Some) == (b.sender is Some) && (b.sender is Some) == (c.sender is Some)
        && (a.path is Some) == (b.path is Some) && (b.path is Some) == (c.path is Some);
    if same {
        lemma_namespace_consistent(a.path_namespace, b.path_namespace, c.path_namespace);
    }
}

/// Two rules are equal, or one of them comes before the other.
pub proof fn law_order_total(a: MatchView, b: MatchView)
    ensures
        rule_order(a, b) is Equal <==> a == b,
        rule_before(a, b) <==> rule_order(b, a) is Greater,
        a != b ==> rule_before(a, b) || rule_before(b, a),
        !(rule_before(a, b) && rule_before(b, a)),
{
    lemma_text_order(a.sender, b.sender);
    lemma_text_order(a.path, b.path);
    lemma_text_order(a.path_namespace, b.path_namespace);
    lemma_text_order(a.interface, b.interface);
    lemma_text_order(a.member, b.member);
    if rule_order(a, b) is Equal {
        assert(a =~= b);
    }
}

/// The first rule that a message matches is one, and none before it is.
pub proof fn lemma_first_matching(rules: Seq<MatchView>, msg: MessageView)
    ensures
        match first_matching(rules, msg) {
            Some(i) => {
                &&& 0 <= i < rules.len()
                &&& rule_matches(rules[i], msg)
                &&& forall|j: int| 0 <= j < i ==> !rule_matches(#[trigger] rules[j], msg)
            },
            None => forall|j: int| 0 <= j < rules.len() ==> !rule_matches(#[trigger] rules[j], msg),
        },
    decreases rules.len(),
{
    if rules.len() > 0 && !rule_matches(rules[0], msg) {
        let tail = rules.skip(1);
        lemma_first_matching(tail, msg);
        let end = match first_matching(tail, msg) {
            Some(i) => i + 1,
            None => rules.len() as int,
        };
        assert forall|j: int| 0 <= j < end implies !rule_matches(#[trigger] rules[j], msg) by {
            if j > 0 {
                assert(tail[j - 1] == rules[j]);
            }
        }
    }
}

/// A rule belongs before the first one that it has to stand before.
pub proof fn lemma_rule_position(rules: Seq<MatchView>, rule: MatchView)
    ensures
        0 <= rule_position(rules, rule) <= rules.len(),
        rule_position(rules, rule) < rules.len() ==> settled(
            rule,
            rules[rule_position(rules, rule)],
        ) && rule_before(rule, rules[rule_position(rules, rule)]),
        forall|j: int|
            0 <= j < rule_position(rules, rule) ==> !(settled(rule, #[trigger] rules[j])
                && rule_before(rule, rules[j])),
    decreases rules.len(),
{
    if rules.len() > 0 && !(settled(rule, rules[0]) && rule_before(rule, rules[0])) {
        let tail = rules.skip(1);
        lemma_rule_position(tail, rule);
        assert forall|j: int| 0 <= j < rule_position(rules, rule) implies !(settled(
            rule,
            #[trigger] rules[j],
        ) && rule_before(rule, rules[j])) by {
            if j > 0 {
                assert(tail[j - 1] == rules[j]);
            }
        }
    }
}

/// Where neither of two rules in a row is settled with the other, but both are with a third
/// one, that one does not stand between them.
proof fn lemma_between(low: MatchView, rule: MatchView, high: MatchView)
    requires
        settled(low, rule),
        settled(rule, high),
        rule_before(low, rule),
        rule_before(rule, high),
    ensures
        settled(low, high),
{
    if !settled(low, high) {
        let (x, y) = (low.path_namespace->Some_0, high.path_namespace->Some_0);
        if let Some(z) = rule.path_namespace {
            let (cx, cy, cz) = (
                path::components_of(x),
                path::components_of(y),
                path::components_of(z),
            );
            assert((rule.sender is Some) == (low.sender is Some));
            assert((rule.path is Some) == (low.path is Some));
            assert(cz.is_prefix_of(cx)) by {
                if cx.is_prefix_of(cz) && !cz.is_prefix_of(cx) {
                    if cx.len() == cz.len() {
                        assert(cx =~= cz);
                    }
                    assert(below(z, x));
                }
            }
            assert(cy.is_prefix_of(cz)) by {
                if cz.is_prefix_of(cy) && !cy.is_prefix_of(cz) {
                    if cy.len() == cz.len() {
                        assert(cy =~= cz);
                    }
                    assert(below(y, z));
                }
            }
            assert(cy =~= cx.subrange(0, cy.len() as int));
            assert(nested(x, y));
        }
    }
}

/// A new rule that goes where it belongs leaves the more specific rules first.
#[verifier::rlimit(40)]
#[verifier::spinoff_prover]
pub proof fn law_insert_keeps_order(rules: Seq<MatchView>, rule: MatchView)
    requires
        ordered(rules),
        !rules.contains(rule),
    ensures
        ordered(rules.insert(rule_position(rules, rule), rule)),
{
    lemma_rule_position(rules, rule);
    let k = rule_position(rules, rule);
    let after = rules.insert(k, rule);
    assert forall|i: int, j: int|
        #![trigger after[i], after[j]]
        0 <= i < j < after.len() && settled(after[i], after[j]) implies rule_before(
        after[i],
        after[j],
    ) by {
        let a = if i < k { i } else { i - 1 };
        let b = if j < k { j } else { j - 1 };
        if i != k && j != k {
            assert(after[i] == rules[a]);
            assert(after[j] == rules[b]);
        } else if j == k {
            assert(after[i] == rules[i]);
            law_order_total(rule, rules[i]);
            assert(rules.contains(rules[i]));
        } else {
            assert(after[j] == rules[b]);
            assert(rules.contains(rules[b]));
            law_order_total(rule, rules[b]);
            if !rule_before(rule, rules[b]) {
                let high = rules[k];
                lemma_between(rules[b], rule, high);
                law_order_transitive(rules[b], rule, high);
                law_order_total(rules[b], high);
                assert(settled(high, rules[b]));
                assert(rule_before(rules[k], rules[b]));
            }
        }
    }
}

/// Taking a rule away leaves the more specific rules first.
pub proof fn law_remove_keeps_order(rules: Seq<MatchView>, k: int)
    requires
        ordered(rules),
        0 <= k < rules.len(),
    ensures
        ordered(rules.remove(k)),
{
    let after = rules.remove(k);
    assert forall|i: int, j: int|
        #![trigger after[i], after[j]]
        0 <= i < j < after.len() && settled(after[i], after[j]) implies rule_before(
        after[i],
        after[j],
    ) by {
        let a = if i < k { i } else { i + 1 };
        let b = if j < k { j } else { j + 1 };
        assert(after[i] == rules[a]);
        assert(after[j] == rules[b]);
    }
}

/// A signal goes to the most specific one of the rules that it matches.
pub proof fn law_most_specific(rules: Seq<MatchView>, msg: MessageView, other: int)
    requires
        ordered(rules),
        0 <= other < rules.len(),
        rule_matches(rules[other], msg),
    ensures
        first_matching(rules, msg) matches Some(i) && (i == other || rule_before(
            rules[i],
            rules[other],
        )),
{
    lemma_first_matching(rules, msg);
    let i = first_matching(rules, msg)->Some_0;
    if i != other {
        let (a, b) = (rules[i], rules[other]);
        if let (Some(x), Some(y)) = (a.path_namespace, b.path_namespace) {
            let object = path::components_of(msg.dynheader.object->Some_0);
            let (cx, cy) = (path::components_of(x), path::components_of(y));
            if cx.len() <= cy.len() {
                assert(cx =~= cy.subrange(0, cx.len() as int));
            } else {
                assert(cy =~= cx.subrange(0, cy.len() as int));
            }
        }
        assert(settled(a, b));
    }
}

/// The rule that every signal matches comes behind all others, so it gets the signals that no
/// other rule matches.
pub proof fn law_empty_rule_is_last(rule: MatchView)
    requires
        rule != empty_match(),
    ensures
        rule_before(rule, empty_match()),
{
    if rule.sender is None && rule.path is None && rule.path_namespace is None && rule.interface
        is None && rule.member is None {
        assert(rule =~= empty_match());
    }
}

// ---------------------------------------------------------------------------
// Rules
// ---------------------------------------------------------------------------

fn same_text(a: &Option<String>, b: &Option<String>) -> (same: bool)
    ensures
        same == (header::opt_text(*a) == header::opt_text(*b)),
{
    match (a, b) {
        (Some(a), Some(b)) => text::str_eq(a.as_str(), b.as_str()),
        (None, None) => true,
        _ => false,
    }
}

fn copy_text(s: &Option<String>) -> (copy: Option<String>)
    ensures
        header::opt_text(copy) == header::opt_text(*s),
{
    match s {
        Some(s) => Some(s.as_str().to_owned()),
        None => None,
    }
}

/// Whether a field of a rule, if it is set, is that of the signal.
fn field_fits(wanted: &Option<String>, field: &Option<String>) -> (fits: bool)
    ensures
        fits == field_matches(header::opt_text(*wanted), header::opt_text(*field)),
{
    wanted.is_none() || same_text(wanted, field)
}

/// Appends a part to a rule text, where the field is set.
fn append_part(s: &mut String, key: &str, value: &Option<String>)
    ensures
        final(s)@ == with_part(old(s)@, key@, header::opt_text(*value)),
{
    if let Some(value) = value {
        proof {
            reveal_strlit(",");
            reveal_strlit("='");
            reveal_strlit("'");
            assert(","@ =~= seq![',']);
            assert("='"@ =~= seq!['=', '\'']);
            assert("'"@ =~= seq!['\'']);
        }
        if !s.as_str().is_empty() {
            s.append(",");
            assert(s@ =~= old(s)@.push(','));
        }
        s.append(key);
        s.append("='");
        s.append(value.as_str());
        s.append("'");
    }
}

/// Whether `a` comes before `b` in a dictionary.
fn is_before(a: &[u8], b: &[u8]) -> (before: bool)
    ensures
        before == bytes_before(a@, b@),
{
    let mut i: usize = 0;
    assert(a@.skip(0) =~= a@);
    assert(b@.skip(0) =~= b@);
    while i < a.len() && i < b.len()
        invariant
            i <= a@.len(),
            i <= b@.len(),
            bytes_before(a@, b@) == bytes_before(a@.skip(i as int), b@.skip(i as int)),
        decreases a@.len() - i,
    {
        if a[i] != b[i] {
            return a[i] < b[i];
        }
        proof {
            assert(a@.skip(i as int).skip(1) =~= a@.skip(i + 1));
            assert(b@.skip(i as int).skip(1) =~= b@.skip(i + 1));
        }
        i += 1;
    }
    i < b.len()
}

/// Whether the path `a` lies below the path `b`.
fn lies_below(a: &str, b: &str) -> (lies: bool)
    ensures
        lies == below(a@, b@),
{
    let deeper = path::path_components(b).len() < path::path_components(a).len();
    deeper && path::starts_with(a, b)
}

fn option_ord(left: &Option<String>, right: &Option<String>) -> (order: Ordering)
    ensures
        order == presence_order(header::opt_text(*left), header::opt_text(*right)),
{
    match (left, right) {
        (Some(_), None) => Ordering::Less,
        (None, Some(_)) => Ordering::Greater,
        _ => Ordering::Equal,
    }
}

fn path_subset(left: &Option<String>, right: &Option<String>) -> (order: Ordering)
    ensures
        order == namespace_order(header::opt_text(*left), header::opt_text(*right)),
{
    match (left, right) {
        (Some(left), Some(right)) => if lies_below(left.as_str(), right.as_str()) {
            Ordering::Less
        } else if lies_below(right.as_str(), left.as_str()) {
            Ordering::Greater
        } else {
            Ordering::Equal
        },
        _ => option_ord(left, right),
    }
}

fn text_ord(left: &Option<String>, right: &Option<String>) -> (order: Ordering)
    ensures
        order == text_order(header::opt_text(*left), header::opt_text(*right)),
{
    match (left, right) {
        (Some(left), Some(right)) => if text::str_eq(left.as_str(), right.as_str()) {
            Ordering::Equal
        } else if is_before(left.as_str().as_bytes(), right.as_str().as_bytes()) {
            Ordering::Less
        } else {
            Ordering::Greater
        },
        (None, None) => Ordering::Equal,
        (None, Some(_)) => Ordering::Less,
        (Some(_), None) => Ordering::Greater,
    }
}

impl Default for Match {
    fn default() -> (rule: Self)
        ensures
            rule@ == empty_match(),
            rule.queue is None,
    {
        Match {
            sender: None,
            path: None,
            path_namespace: None,
            interface: None,
            member: None,
            queue: None,
        }
    }
}

impl Clone for Match {
    fn clone(&self) -> (rule: Self)
        ensures
            rule@ == self@,
            rule.queue is None,
    {
        Match {
            sender: copy_text(&self.sender),
            path: copy_text(&self.path),
            path_namespace: copy_text(&self.path_namespace),
            interface: copy_text(&self.interface),
            member: copy_text(&self.member),
            queue: None,
        }
    }
}

impl PartialEq for Match {
    fn eq(&self, other: &Match) -> (equal: bool) {
        let equal = same_text(&self.sender, &other.sender) && same_text(&self.path, &other.path)
            && same_text(&self.path_namespace, &other.path_namespace) && same_text(
            &self.interface,
            &other.interface,
        ) && same_text(&self.member, &other.member);
        equal
    }
}

impl vstd::std_specs::cmp::PartialEqSpecImpl for Match {
    open spec fn obeys_eq_spec() -> bool {
        true
    }

    open spec fn eq_spec(&self, other: &Match) -> bool {
        self@ == other@
    }
}

impl Eq for Match {

}

impl Match {
    /// The rule that every signal matches.
    pub fn new() -> (rule: Self)
        ensures
            rule@ == empty_match(),
            rule.queue is None,
    {
        Self::default()
    }

    /// Asks for the sender.
    pub fn sender(&mut self, sender: &str) -> (rule: &mut Self)
        ensures
            rule@ == (MatchView { sender: Some(sender@), ..old(self)@ }),
            rule.queue == old(self).queue,
            *final(self) == *final(rule),
    {
        self.sender = Some(sender.to_owned());
        self
    }

    /// Asks for the object path. It takes the place of a namespace.
    pub fn path(&mut self, path: &str) -> (rule: &mut Self)
        ensures
            rule@ == (MatchView { path: Some(path@), path_namespace: None, ..old(self)@ }),
            rule.queue == old(self).queue,
            *final(self) == *final(rule),
    {
        self.path = Some(path.to_owned());
        self.path_namespace = None;
        self
    }

    /// Asks for an object path that starts with the given one. It takes the place of a path.
    pub fn path_namespace(&mut self, path_namespace: &str) -> (rule: &mut Self)
        ensures
            rule@ == (MatchView {
                path: None,
                path_namespace: Some(path_namespace@),
                ..old(self)@
            }),
            rule.queue == old(self).queue,
            *final(self) == *final(rule),
    {
        self.path_namespace = Some(path_namespace.to_owned());
        self.path = None;
        self
    }

    /// Asks for the interface.
    pub fn interface(&mut self, interface: &str) -> (rule: &mut Self)
        ensures
            rule@ == (MatchView { interface: Some(interface@), ..old(self)@ }),
            rule.queue == old(self).queue,
            *final(self) == *final(rule),
    {
        self.interface = Some(interface.to_owned());
        self
    }

    /// Asks for the member.
    pub fn member(&mut self, member: &str) -> (rule: &mut Self)
        ensures
            rule@ == (MatchView { member: Some(member@), ..old(self)@ }),
            rule.queue == old(self).queue,
            *final(self) == *final(rule),
    {
        self.member = Some(member.to_owned());
        self
    }

    /// Whether every signal matches the rule, because nothing is asked for.
    pub fn is_empty(&self) -> (empty: bool)
        ensures
            empty == (self@ == empty_match()),
            empty == (self.sender is None && self.path is None && self.path_namespace is None
                && self.interface is None && self.member is None),
    {
        self.sender.is_none() && self.path.is_none() && self.path_namespace.is_none()
            && self.interface.is_none() && self.member.is_none()
    }

    /// Whether a message is a signal that matches the rule.
    pub fn matches(&self, msg: &MarshalledMessage) -> (matches: bool)
        ensures
            matches == rule_matches(self@, msg@),
            matches ==> msg.typ is Signal,
            matches ==> (self.sender matches Some(wanted) ==> (msg.dynheader.sender matches Some(own)
                && own@ == wanted@)),
            matches ==> (self.path matches Some(wanted) ==> (msg.dynheader.object matches Some(own)
                && own@ == wanted@)),
            matches ==> (self.interface matches Some(wanted) ==> (
            msg.dynheader.interface matches Some(own) && own@ == wanted@)),
            matches ==> (self.member matches Some(wanted) ==> (msg.dynheader.member matches Some(own)
                && own@ == wanted@)),
            matches ==> (self.path_namespace matches Some(wanted) ==> (
            msg.dynheader.object matches Some(own) && path::path_starts_with(own@, wanted@))),
    {
        if !matches!(msg.typ, MessageType::Signal) {
            return false;
        }
        if !field_fits(&self.sender, &msg.dynheader.sender) {
            return false;
        }
        if !field_fits(&self.path, &msg.dynheader.object) {
            return false;
        }
        match (&self.path_namespace, &msg.dynheader.object) {
            (Some(namespace), Some(object)) => {
                if !path::starts_with(object.as_str(), namespace.as_str()) {
                    return false;
                }
            },
            (Some(_), None) => {
                return false;
            },
            (None, _) => {},
        }
        field_fits(&self.interface, &msg.dynheader.interface) && field_fits(
            &self.member,
            &msg.dynheader.member,
        )
    }

    /// The rule as text.
    pub fn match_string(&self) -> (s: String)
        ensures
            s@ == rule_text(self@),
    {
        let mut s = String::new();
        append_part(&mut s, "sender", &self.sender);
        append_part(&mut s, "path", &self.path);
        append_part(&mut s, "path_namespace", &self.path_namespace);
        append_part(&mut s, "interface", &self.interface);
        append_part(&mut s, "member", &self.member);
        s
    }

    /// The order of two rules.
    pub fn cmp(&self, other: &Match) -> (order: Ordering)
        ensures
            order == rule_order(self@, other@),
    {
        match option_ord(&self.sender, &other.sender) {
            Ordering::Equal => {},
            order => {
                return order;
            },
        }
        match option_ord(&self.path, &other.path) {
            Ordering::Equal => {},
            order => {
                return order;
            },
        }
        match path_subset(&self.path_namespace, &other.path_namespace) {
            Ordering::Equal => {},
            order => {
                return order;
            },
        }
        match option_ord(&self.interface, &other.interface) {
            Ordering::Equal => {},
            order => {
                return order;
            },
        }
        match option_ord(&self.member, &other.member) {
            Ordering::Equal => {},
            order => {
                return order;
            },
        }
        match text_ord(&self.sender, &other.sender) {
            Ordering::Equal => {},
            order => {
                return order;
            },
        }
        match text_ord(&self.path, &other.path) {
            Ordering::Equal => {},
            order => {
                return order;
            },
        }
        match text_ord(&self.path_namespace, &other.path_namespace) {
            Ordering::Equal => {},
            order => {
                return order;
            },
        }
        match text_ord(&self.interface, &other.interface) {
            Ordering::Equal => {},
            order => {
                return order;
            },
        }
        text_ord(&self.member, &other.member)
    }

    /// Whether this rule has to stand before the other one.
    pub(crate) fn goes_before(&self, other: &Match) -> (before: bool)
        ensures
            before == (settled(self@, other@) && rule_before(self@, other@)),
    {
        let settled = self.sender.is_some() != other.sender.is_some() || self.path.is_some()
            != other.path.is_some() || match (&self.path_namespace, &other.path_namespace) {
            (Some(own), Some(theirs)) => path::starts_with(own.as_str(), theirs.as_str())
                || path::starts_with(theirs.as_str(), own.as_str()),
            _ => true,
        };
        settled && matches!(self.cmp(other), Ordering::Less)
    }
}

// ---------------------------------------------------------------------------
// What matching means
// ---------------------------------------------------------------------------

/// A message that matches a rule is a signal, and it agrees with the rule in each field that the
/// rule sets, whatever other fields it sets.
pub proof fn law_matched_signal_agrees(rule: MatchView, msg: MessageView)
    requires
        rule_matches(rule, msg),
    ensures
        msg.typ is Signal,
        rule.sender matches Some(sender) ==> msg.dynheader.sender == Some(sender),
        rule.path matches Some(path) ==> msg.dynheader.object == Some(path),
        rule.interface matches Some(interface) ==> msg.dynheader.interface == Some(interface),
        rule.member matches Some(member) ==> msg.dynheader.member == Some(member),
        rule.path_namespace is Some ==> msg.dynheader.object is Some,
        rule.path_namespace matches Some(namespace) ==> (msg.dynheader.object matches Some(object)
            && (path::valid_path(namespace) && path::valid_path(object) ==> path::same_or_above(
            namespace,
            object,
        ))),
{
    if let (Some(namespace), Some(object)) = (rule.path_namespace, msg.dynheader.object) {
        if path::valid_path(namespace) && path::valid_path(object) {
            path::law_starts_with_text(object, namespace);
        }
    }
}

/// A signal that agrees with a rule in each field that the rule sets matches it.
pub proof fn law_agreeing_signal_matches(rule: MatchView, msg: MessageView)
    requires
        msg.typ is Signal,
        rule.sender matches Some(sender) ==> msg.dynheader.sender == Some(sender),
        rule.path matches Some(path) ==> msg.dynheader.object == Some(path),
        rule.interface matches Some(interface) ==> msg.dynheader.interface == Some(interface),
        rule.member matches Some(member) ==> msg.dynheader.member == Some(member),
        rule.path_namespace matches Some(namespace) ==> (msg.dynheader.object matches Some(object)
            && path::valid_path(namespace) && path::valid_path(object) && path::same_or_above(
            namespace,
            object,
        )),
    ensures
        rule_matches(rule, msg),
{
    if let (Some(namespace), Some(object)) = (rule.path_namespace, msg.dynheader.object) {
        path::law_starts_with_text(object, namespace);
    }
}

/// A rule that asks for more matches no signal that a rule which asks for less does not.
pub proof fn law_more_fields_match_less(less: MatchView, more: MatchView, msg: MessageView)
    requires
        rule_matches(more, msg),
        less.sender is Some ==> less.sender == more.sender,
        less.path is Some ==> less.path == more.path,
        less.path_namespace is Some ==> less.path_namespace == more.path_namespace,
        less.interface is Some ==> less.interface == more.interface,
        less.member is Some ==> less.member == more.member,
    ensures
        rule_matches(less, msg),
{
}

/// A rule matches what a rule for each of its fields would match.
pub proof fn law_fields_match_one_by_one(rule: MatchView, msg: MessageView)
    ensures
        rule_matches(rule, msg) <==> {
            &&& rule_matches(MatchView { sender: rule.sender, ..empty_match() }, msg)
            &&& rule_matches(MatchView { path: rule.path, ..empty_match() }, msg)
            &&& rule_matches(
                MatchView { path_namespace: rule.path_namespace, ..empty_match() },
                msg,
            )
            &&& rule_matches(MatchView { interface: rule.interface, ..empty_match() }, msg)
            &&& rule_matches(MatchView { member: rule.member, ..empty_match() }, msg)
        },
{
}

/// Of two rules the one that sets the sender comes first; of two that agree in this, the one
/// that sets the path; then the one with the namespace, or with the one that lies in the other;
/// then the one that sets the interface, and then the one that sets the member.
pub proof fn law_more_specific_first(a: MatchView, b: MatchView)
    requires
        ({
            let sender = (a.sender is Some) == (b.sender is Some);
            let path = (a.path is Some) == (b.path is Some);
            let namespace = a.path_namespace == b.path_namespace;
            let interface = (a.interface is Some) == (b.interface is Some);
            ||| a.sender is Some && b.sender is None
            ||| sender && a.path is Some && b.path is None
            ||| sender && path && a.path_namespace is Some && b.path_namespace is None
            ||| sender && path && (a.path_namespace matches Some(x) && b.path_namespace matches Some(
                y,
            ) && x != y && path::valid_path(x) && path::valid_path(y) && path::same_or_above(y, x))
            ||| sender && path && namespace && a.interface is Some && b.interface is None
            ||| sender && path && namespace && interface && a.member is Some && b.member is None
        }),
    ensures
        rule_before(a, b),
        !rule_before(b, a),
{
    law_order_total(a, b);
    if let (Some(x), Some(y)) = (a.path_namespace, b.path_namespace) {
        if x != y && path::valid_path(x) && path::valid_path(y) && path::same_or_above(y, x) {
            path::law_starts_with_text(x, y);
            path::lemma_valid_path(x);
            path::lemma_valid_path(y);
            let (cx, cy) = (path::components_of(x), path::components_of(y));
            if cx.len() == cy.len() {
                assert(cx =~= cy);
                assert(path::elements(x) =~= cx.skip(1));
                assert(path::elements(y) =~= cy.skip(1));
                path::lemma_same_elements(x, y);
            }
        }
        if x == y {
            assert(!below(x, y));
        }
    }
}

/// Rules that set the same fields, and name the same namespace, stand in the order of the texts
/// in which they first differ.
pub proof fn law_equal_rules_by_text(a: MatchView, b: MatchView)
    requires
        (a.sender is Some) == (b.sender is Some),
        (a.path is Some) == (b.path is Some),
        a.path_namespace == b.path_namespace,
        (a.interface is Some) == (b.interface is Some),
        (a.member is Some) == (b.member is Some),
    ensures
        a.sender != b.sender ==> (rule_before(a, b) <==> text_before(a.sender, b.sender)),
        a.sender == b.sender && a.path != b.path ==> (rule_before(a, b) <==> text_before(
            a.path,
            b.path,
        )),
        a.sender == b.sender && a.path == b.path && a.interface != b.interface ==> (rule_before(
            a,
            b,
        ) <==> text_before(a.interface, b.interface)),
        a.sender == b.sender && a.path == b.path && a.interface == b.interface && a.member
            != b.member ==> (rule_before(a, b) <==> text_before(a.member, b.member)),
{
    lemma_text_before(a.sender, b.sender);
    lemma_text_before(a.path, b.path);
    lemma_text_before(a.interface, b.interface);
    lemma_text_before(a.member, b.member);
    if let (Some(x), Some(y)) = (a.path_namespace, b.path_namespace) {
        assert(!below(x, y));
    }
}

/// Both texts are there, and at the first byte in which they differ the first one has the
/// smaller byte or has ended.
pub open spec fn text_before(a: Option<Seq<char>>, b: Option<Seq<char>>) -> bool {
    a matches Some(x) && b matches Some(y) && smaller(encode_utf8(x), encode_utf8(y))
}

/// The bytes are the same up to a position where `a` has ended or has the smaller byte.
pub open spec fn smaller(a: Seq<u8>, b: Seq<u8>) -> bool {
    exists|i: int| #[trigger] smaller_at(a, b, i)
}

/// The first `i` bytes are the same, and `a` has ended there or has the smaller byte.
pub open spec fn smaller_at(a: Seq<u8>, b: Seq<u8>, i: int) -> bool {
    &&& 0 <= i <= a.len()
    &&& i < b.len()
    &&& a.take(i) == b.take(i)
    &&& i == a.len() || a[i] < b[i]
}

proof fn lemma_smaller(a: Seq<u8>, b: Seq<u8>)
    ensures
        bytes_before(a, b) <==> smaller(a, b),
    decreases a.len(),
{
    if a.len() > 0 && b.len() > 0 && a[0] == b[0] {
        let (x, y) = (a.skip(1), b.skip(1));
        lemma_smaller(x, y);
        if smaller(x, y) {
            let i = choose|i: int| smaller_at(x, y, i);
            let (p, q) = (a.take(i + 1), b.take(i + 1));
            assert forall|j: int| 0 <= j < p.len() implies p[j] == q[j] by {
                if j > 0 {
                    assert(x.take(i)[j - 1] == y.take(i)[j - 1]);
                }
            }
            assert(p =~= q);
            assert(smaller_at(a, b, i + 1));
        }
        if smaller(a, b) {
            let i = choose|i: int| smaller_at(a, b, i);
            assert(i > 0);
            let (p, q) = (x.take(i - 1), y.take(i - 1));
            assert forall|j: int| 0 <= j < p.len() implies p[j] == q[j] by {
                assert(a.take(i)[j + 1] == b.take(i)[j + 1]);
            }
            assert(p =~= q);
            assert(smaller_at(x, y, i - 1));
        }
    } else {
        if bytes_before(a, b) {
            assert(a.take(0) =~= b.take(0));
            assert(smaller_at(a, b, 0));
        }
        if smaller(a, b) {
            let i = choose|i: int| smaller_at(a, b, i);
            if i > 0 {
                assert(a.take(i)[0] == b.take(i)[0]);
            }
        }
    }
}

proof fn lemma_text_before(a: Option<Seq<char>>, b: Option<Seq<char>>)
    ensures
        a is Some && b is Some && a != b ==> (text_order(a, b) is Less <==> text_before(a, b)),
        a is Some && b is Some && a != b ==> !(text_order(a, b) is Equal),
        a == b ==> text_order(a, b) is Equal,
{
    if let (Some(x), Some(y)) = (a, b) {
        lemma_smaller(encode_utf8(x), encode_utf8(y));
    }
}

// ---------------------------------------------------------------------------
// Reading a rule back
// ---------------------------------------------------------------------------

/// The keys and values of a text of parts `key='value'` with commas between them, or `None`
/// where the text is no such list.
pub open spec fn read_parts(s: Seq<char>) -> Option<Seq<(Seq<char>, Seq<char>)>>
    decreases s.len(),
{
    let equals = text::first_index(s, '=');
    if !(0 <= equals && equals + 1 < s.len() && s[equals + 1] == '\'') {
        None
    } else {
        let behind = s.skip(equals + 2);
        let quote = text::first_index(behind, '\'');
        if !(0 <= quote < behind.len()) {
            None
        } else {
            let part = (s.take(equals), behind.take(quote));
            let rest = behind.skip(quote + 1);
            if rest.len() == 0 {
                Some(seq![part])
            } else if rest[0] != ',' {
                None
            } else {
                match read_parts(rest.skip(1)) {
                    Some(parts) => Some(seq![part] + parts),
                    None => None,
                }
            }
        }
    }
}

/// The keys and values of a rule text, which has none where it is empty.
pub open spec fn read_rule(s: Seq<char>) -> Option<Seq<(Seq<char>, Seq<char>)>> {
    if s.len() == 0 {
        Some(seq![])
    } else {
        read_parts(s)
    }
}

/// The value of the last part with the key.
pub open spec fn value_under(parts: Seq<(Seq<char>, Seq<char>)>, key: Seq<char>) -> Option<
    Seq<char>,
>
    decreases parts.len(),
{
    if parts.len() == 0 {
        None
    } else if parts.last().0 == key {
        Some(parts.last().1)
    } else {
        value_under(parts.drop_last(), key)
    }
}

/// One field, if it is set.
pub open spec fn count(field: Option<Seq<char>>) -> nat {
    if field is Some {
        1
    } else {
        0
    }
}

/// The text, where there is one, holds no quote.
pub open spec fn unquoted(field: Option<Seq<char>>) -> bool {
    field matches Some(value) ==> !value.contains('\'')
}

/// No field of the rule holds a quote.
pub open spec fn is_unquoted(rule: MatchView) -> bool {
    &&& unquoted(rule.sender)
    &&& unquoted(rule.path)
    &&& unquoted(rule.path_namespace)
    &&& unquoted(rule.interface)
    &&& unquoted(rule.member)
}

spec fn part_text(part: (Seq<char>, Seq<char>)) -> Seq<char> {
    part.0 + seq!['=', '\''] + part.1 + seq!['\'']
}

spec fn list_text(parts: Seq<(Seq<char>, Seq<char>)>) -> Seq<char>
    decreases parts.len(),
{
    if parts.len() == 0 {
        seq![]
    } else if parts.len() == 1 {
        part_text(parts[0])
    } else {
        part_text(parts[0]) + seq![','] + list_text(parts.skip(1))
    }
}

spec fn with_field(
    parts: Seq<(Seq<char>, Seq<char>)>,
    key: Seq<char>,
    value: Option<Seq<char>>,
) -> Seq<(Seq<char>, Seq<char>)> {
    match value {
        Some(value) => parts.push((key, value)),
        None => parts,
    }
}

proof fn lemma_list_text_push(parts: Seq<(Seq<char>, Seq<char>)>, part: (Seq<char>, Seq<char>))
    ensures
        list_text(parts.push(part)) == (if parts.len() == 0 {
            seq![]
        } else {
            list_text(parts).push(',')
        }) + part_text(part),
        parts.len() > 0 ==> list_text(parts).len() > 0,
    decreases parts.len(),
{
    let all = parts.push(part);
    if parts.len() == 0 {
        assert(list_text(all) =~= seq![] + part_text(part));
    } else {
        assert(all.skip(1) =~= parts.skip(1).push(part));
        lemma_list_text_push(parts.skip(1), part);
        if parts.len() == 1 {
            assert(parts.skip(1) =~= seq![]);
        }
        assert(list_text(all) =~= list_text(parts).push(',') + part_text(part));
    }
}

proof fn lemma_with_part(
    parts: Seq<(Seq<char>, Seq<char>)>,
    key: Seq<char>,
    value: Option<Seq<char>>,
)
    ensures
        with_part(list_text(parts), key, value) == list_text(with_field(parts, key, value)),
{
    if let Some(v) = value {
        lemma_list_text_push(parts, (key, v));
        assert(with_part(list_text(parts), key, value) =~= list_text(parts.push((key, v))));
    }
}

spec fn readable(parts: Seq<(Seq<char>, Seq<char>)>) -> bool {
    forall|i: int|
        0 <= i < parts.len() ==> !(#[trigger] parts[i]).0.contains('=') && !parts[i].1.contains(
            '\'',
        )
}

#[verifier::rlimit(30)]
#[verifier::spinoff_prover]
proof fn lemma_read_list(parts: Seq<(Seq<char>, Seq<char>)>)
    requires
        parts.len() > 0,
        readable(parts),
    ensures
        read_parts(list_text(parts)) == Some(parts),
        list_text(parts).len() > 0,
    decreases parts.len(),
{
    let s = list_text(parts);
    let (key, value) = parts[0];
    let tail: Seq<char> = if parts.len() == 1 {
        seq![]
    } else {
        seq![','] + list_text(parts.skip(1))
    };
    assert(s =~= key + seq!['=', '\''] + value + seq!['\''] + tail);
    assert forall|j: int| 0 <= j < key.len() implies s[j] != '=' by {
        assert(s[j] == key[j]);
        assert(key.contains(key[j]));
    }
    text::lemma_first_index_is(s, '=', key.len() as int);
    let behind = s.skip(key.len() as int + 2);
    assert(behind =~= value + seq!['\''] + tail);
    assert forall|j: int| 0 <= j < value.len() implies behind[j] != '\'' by {
        assert(behind[j] == value[j]);
        assert(value.contains(value[j]));
    }
    text::lemma_first_index_is(behind, '\'', value.len() as int);
    assert(s.take(key.len() as int) =~= key);
    assert(behind.take(value.len() as int) =~= value);
    assert(behind.skip(value.len() as int + 1) =~= tail);
    if parts.len() > 1 {
        let others = parts.skip(1);
        assert forall|i: int| 0 <= i < others.len() implies !(#[trigger] others[i]).0.contains('=')
            && !others[i].1.contains('\'') by {
            assert(others[i] == parts[i + 1]);
        }
        lemma_read_list(others);
        assert(tail.skip(1) =~= list_text(others));
        assert(seq![(key, value)] + others =~= parts);
    } else {
        assert(seq![(key, value)] =~= parts);
    }
}

spec fn fields_of(rule: MatchView) -> Seq<(Seq<char>, Seq<char>)> {
    let one = with_field(seq![], "sender"@, rule.sender);
    let two = with_field(one, "path"@, rule.path);
    let three = with_field(two, "path_namespace"@, rule.path_namespace);
    let four = with_field(three, "interface"@, rule.interface);
    with_field(four, "member"@, rule.member)
}

proof fn lemma_value_under(
    parts: Seq<(Seq<char>, Seq<char>)>,
    key: Seq<char>,
    value: Option<Seq<char>>,
    other: Seq<char>,
)
    ensures
        value_under(with_field(parts, key, value), other) == (if other == key && value is Some {
            value
        } else {
            value_under(parts, other)
        }),
{
    if let Some(v) = value {
        assert(parts.push((key, v)).drop_last() =~= parts);
    }
}

proof fn lemma_rule_text(rule: MatchView)
    ensures
        rule_text(rule) == list_text(fields_of(rule)),
{
    let none = Seq::<(Seq<char>, Seq<char>)>::empty();
    assert(list_text(none) =~= seq![]);
    let one = with_field(none, "sender"@, rule.sender);
    let two = with_field(one, "path"@, rule.path);
    let three = with_field(two, "path_namespace"@, rule.path_namespace);
    let four = with_field(three, "interface"@, rule.interface);
    lemma_with_part(none, "sender"@, rule.sender);
    lemma_with_part(one, "path"@, rule.path);
    lemma_with_part(two, "path_namespace"@, rule.path_namespace);
    lemma_with_part(three, "interface"@, rule.interface);
    lemma_with_part(four, "member"@, rule.member);
}

proof fn lemma_values(rule: MatchView, key: Seq<char>)
    ensures
        value_under(fields_of(rule), key) == (if key == "member"@ && rule.member is Some {
            rule.member
        } else if key == "interface"@ && rule.interface is Some {
            rule.interface
        } else if key == "path_namespace"@ && rule.path_namespace is Some {
            rule.path_namespace
        } else if key == "path"@ && rule.path is Some {
            rule.path
        } else if key == "sender"@ && rule.sender is Some {
            rule.sender
        } else {
            None
        }),
{
    let none = Seq::<(Seq<char>, Seq<char>)>::empty();
    let one = with_field(none, "sender"@, rule.sender);
    let two = with_field(one, "path"@, rule.path);
    let three = with_field(two, "path_namespace"@, rule.path_namespace);
    let four = with_field(three, "interface"@, rule.interface);
    lemma_value_under(none, "sender"@, rule.sender, key);
    lemma_value_under(one, "path"@, rule.path, key);
    lemma_value_under(two, "path_namespace"@, rule.path_namespace, key);
    lemma_value_under(three, "interface"@, rule.interface, key);
    lemma_value_under(four, "member"@, rule.member, key);
}

proof fn lemma_keys()
    ensures
        "sender"@ != "path"@,
        "sender"@ != "path_namespace"@,
        "sender"@ != "interface"@,
        "sender"@ != "member"@,
        "path"@ != "path_namespace"@,
        "path"@ != "interface"@,
        "path"@ != "member"@,
        "path_namespace"@ != "interface"@,
        "path_namespace"@ != "member"@,
        "interface"@ != "member"@,
        !"sender"@.contains('='),
        !"path"@.contains('='),
        !"path_namespace"@.contains('='),
        !"interface"@.contains('='),
        !"member"@.contains('='),
{
    reveal_strlit("sender");
    reveal_strlit("path");
    reveal_strlit("path_namespace");
    reveal_strlit("interface");
    reveal_strlit("member");
    assert("sender"@[0] == 's');
    assert("path"@.len() == 4);
    assert("path_namespace"@.len() == 14);
    assert("interface"@.len() == 9);
    assert("member"@[0] == 'm');
}

/// The rule text can be read back as a list of parts `key='value'`: each field that the rule
/// sets stands under its own key, and nothing else is in the list.
pub proof fn law_rule_text_reads_back(rule: MatchView)
    requires
        is_unquoted(rule),
    ensures
        read_rule(rule_text(rule)) matches Some(parts) && {
            &&& value_under(parts, "sender"@) == rule.sender
            &&& value_under(parts, "path"@) == rule.path
            &&& value_under(parts, "path_namespace"@) == rule.path_namespace
            &&& value_under(parts, "interface"@) == rule.interface
            &&& value_under(parts, "member"@) == rule.member
            &&& parts.len() == count(rule.sender) + count(rule.path) + count(rule.path_namespace)
                + count(rule.interface) + count(rule.member)
        },
{
    let parts = fields_of(rule);
    lemma_keys();
    lemma_rule_text(rule);
    lemma_values(rule, "sender"@);
    lemma_values(rule, "path"@);
    lemma_values(rule, "path_namespace"@);
    lemma_values(rule, "interface"@);
    lemma_values(rule, "member"@);
    assert(readable(parts));
    if parts.len() > 0 {
        lemma_read_list(parts);
    } else {
        assert(list_text(parts) =~= seq![]);
        assert(parts =~= seq![]);
    }
}

/// Different rules are asked for in different texts.
pub proof fn law_rule_texts_differ(a: MatchView, b: MatchView)
    requires
        is_unquoted(a),
        is_unquoted(b),
        rule_text(a) == rule_text(b),
    ensures
        a == b,
{
    law_rule_text_reads_back(a);
    law_rule_text_reads_back(b);
}

/// Of two rules in the list that a signal matches, the one that stands first is the one that
/// sets the sender; if they agree in this, the one that sets the path; then the one with the
/// narrower namespace; then the one that sets the interface, and then the one that sets the
/// member.
pub proof fn law_narrower_rules_stand_first(
    rules: Seq<MatchView>,
    msg: MessageView,
    i: int,
    j: int,
)
    requires
        ordered(rules),
        0 <= i < j < rules.len(),
        rule_matches(rules[i], msg),
        rule_matches(rules[j], msg),
    ensures
        ({
            let (a, b) = (rules[i], rules[j]);
            let sender = (a.sender is Some) == (b.sender is Some);
            let path = (a.path is Some) == (b.path is Some);
            let namespace = a.path_namespace == b.path_namespace;
            let interface = (a.interface is Some) == (b.interface is Some);
            &&& b.sender is Some ==> a.sender is Some
            &&& sender && b.path is Some ==> a.path is Some
            &&& sender && path && b.path_namespace is Some ==> a.path_namespace is Some
            &&& sender && path && (a.path_namespace matches Some(x)
                && b.path_namespace matches Some(y) && path::valid_path(x) && path::valid_path(y))
                ==> path::same_or_above(b.path_namespace->Some_0, a.path_namespace->Some_0)
            &&& sender && path && namespace && b.interface is Some ==> a.interface is Some
            &&& sender && path && namespace && interface && b.member is Some ==> a.member is Some
        }),
{
    let (a, b) = (rules[i], rules[j]);
    lemma_both_match(a, b, msg);
    law_order_total(a, b);
    if a.path_namespace == b.path_namespace && a.path_namespace is Some {
        assert(!below(a.path_namespace->Some_0, a.path_namespace->Some_0));
    }
    if let (Some(x), Some(y)) = (a.path_namespace, b.path_namespace) {
        if path::valid_path(x) && path::valid_path(y) {
            path::law_starts_with_text(x, y);
            let (cx, cy) = (path::components_of(x), path::components_of(y));
            if !cy.is_prefix_of(cx) {
                assert(cx.is_prefix_of(cy));
                if cx.len() == cy.len() {
                    assert(cx =~= cy);
                    assert(cy =~= cx.subrange(0, cy.len() as int));
                }
                assert(below(y, x));
            }
        }
    }
}

/// Two rules that a signal matches are settled.
proof fn lemma_both_match(a: MatchView, b: MatchView, msg: MessageView)
    requires
        rule_matches(a, msg),
        rule_matches(b, msg),
    ensures
        settled(a, b),
{
    if let (Some(x), Some(y)) = (a.path_namespace, b.path_namespace) {
        let object = path::components_of(msg.dynheader.object->Some_0);
        let (cx, cy) = (path::components_of(x), path::components_of(y));
        if cx.len() <= cy.len() {
            assert(cx =~= cy.subrange(0, cx.len() as int));
        } else {
            assert(cy =~= cx.subrange(0, cy.len() as int));
        }
    }
}

/// Rules that set the same fields, with the same sender and path but namespaces of which neither
/// lies in the other, stand in the order of the namespaces' texts.
pub proof fn law_unrelated_namespaces_by_text(a: MatchView, b: MatchView)
    requires
        a.sender == b.sender,
        a.path == b.path,
        a.path_namespace matches Some(x) && path::valid_path(x),
        b.path_namespace matches Some(y) && path::valid_path(y),
        !path::same_or_above(a.path_namespace->Some_0, b.path_namespace->Some_0),
        !path::same_or_above(b.path_namespace->Some_0, a.path_namespace->Some_0),
        (a.interface is Some) == (b.interface is Some),
        (a.member is Some) == (b.member is Some),
    ensures
        rule_before(a, b) <==> text_before(a.path_namespace, b.path_namespace),
{
    let (x, y) = (a.path_namespace->Some_0, b.path_namespace->Some_0);
    path::law_starts_with_text(x, y);
    path::law_starts_with_text(y, x);
    lemma_text_before(a.path_namespace, b.path_namespace);
    lemma_text_before(a.sender, b.sender);
    lemma_text_before(a.path, b.path);
}

} // verus!
