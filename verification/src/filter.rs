//! The decision whether a packet is relayed.

use vstd::prelude::*;
use crate::config::{allow_everything, first_match, Action, Config, PacketInfo, Rule, RuleView};

verus! {

/// A configuration in use.
pub struct Filter {
    config: Config,
}

impl View for Filter {
    type V = Seq<RuleView>;

    closed spec fn view(&self) -> Seq<RuleView> {
        self.config@
    }
}

/// The rule by which a packet is relayed: the first one that it satisfies, if
/// that one allows it.
pub open spec fn allowing_rule(rules: Seq<RuleView>, pkt: PacketInfo) -> Option<RuleView> {
    match first_match(rules, pkt) {
        Some(rule) => if rule.action == Action::Allow {
            Some(rule)
        } else {
            None
        },
        None => None,
    }
}

impl Filter {
    /// A filter with the rules of `config`.
    pub fn new(config: Config) -> (r: Filter)
        ensures
            r@ == config@,
    {
        Filter { config }
    }

    /// Whether a packet should be relayed. A packet that satisfies no rule is
    /// denied.
    pub fn should_relay(&self, pkt: &PacketInfo) -> (r: bool)
        ensures
            r == allowing_rule(self@, *pkt) is Some,
    {
        match self.config.find_match(pkt) {
            Some(rule) => rule.action == Action::Allow,
            None => false,
        }
    }

    /// The rule by which a packet is relayed, for its NAT options.
    pub fn get_nat_rule(&self, pkt: &PacketInfo) -> (r: Option<&Rule>)
        ensures
            match r {
                Some(rule) => allowing_rule(self@, *pkt) == Some(rule@),
                None => allowing_rule(self@, *pkt) is None,
            },
    {
        match self.config.find_match(pkt) {
            Some(rule) => if rule.action == Action::Allow {
                Some(rule)
            } else {
                None
            },
            None => None,
        }
    }
}

/// The first matching rule wins: a rule is the match of a packet exactly when
/// the packet satisfies it and none of the rules above it.
pub proof fn first_match_wins(rules: Seq<RuleView>, pkt: PacketInfo, i: int)
    requires
        0 <= i < rules.len(),
        rules[i].admits(pkt),
        forall|j: int| 0 <= j < i ==> !(#[trigger] rules[j]).admits(pkt),
    ensures
        first_match(rules, pkt) == Some(rules[i]),
    decreases rules.len(),
{
    if i > 0 {
        let rest = rules.drop_first();
        assert(!rules[0].admits(pkt));
        assert forall|j: int| 0 <= j < i - 1 implies !(#[trigger] rest[j]).admits(pkt) by {
            assert(rest[j] == rules[j + 1]);
        }
        first_match_wins(rest, pkt, i - 1);
    }
}

/// Deny by default: a packet is relayed only if it satisfies an `allow` rule,
/// and then that rule stands above every `deny` rule that it satisfies.
pub proof fn relayed_only_if_allowed(rules: Seq<RuleView>, pkt: PacketInfo)
    ensures
        allowing_rule(rules, pkt) is Some <==> exists|i: int|
            {
                &&& 0 <= i < rules.len()
                &&& (#[trigger] rules[i]).admits(pkt)
                &&& rules[i].action == Action::Allow
                &&& forall|j: int| 0 <= j < i ==> !(#[trigger] rules[j]).admits(pkt)
            },
{
    assert forall|i: int|
        {
            &&& 0 <= i < rules.len()
            &&& (#[trigger] rules[i]).admits(pkt)
            &&& rules[i].action == Action::Allow
            &&& forall|j: int| 0 <= j < i ==> !(#[trigger] rules[j]).admits(pkt)
        } implies allowing_rule(rules, pkt) is Some by {
        first_match_wins(rules, pkt, i);
    }
    if allowing_rule(rules, pkt) is Some {
        let i = lemma_match_index(rules, pkt);
        assert(rules[i].admits(pkt) && rules[i].action == Action::Allow);
    }
}

/// The position of the first match.
proof fn lemma_match_index(rules: Seq<RuleView>, pkt: PacketInfo) -> (i: int)
    requires
        first_match(rules, pkt) is Some,
    ensures
        0 <= i < rules.len(),
        rules[i].admits(pkt),
        first_match(rules, pkt) == Some(rules[i]),
        forall|j: int| 0 <= j < i ==> !(#[trigger] rules[j]).admits(pkt),
    decreases rules.len(),
{
    if rules[0].admits(pkt) {
        0
    } else {
        let rest = rules.drop_first();
        let k = lemma_match_index(rest, pkt);
        assert forall|j: int| 0 <= j < k + 1 implies !(#[trigger] rules[j]).admits(pkt) by {
            if j > 0 {
                assert(rules[j] == rest[j - 1]);
            }
        }
        k + 1
    }
}

/// Without an `allow` rule nothing is relayed.
pub proof fn nothing_relayed_without_allow(rules: Seq<RuleView>, pkt: PacketInfo)
    requires
        forall|i: int| 0 <= i < rules.len() ==> (#[trigger] rules[i]).action == Action::Deny,
    ensures
        allowing_rule(rules, pkt) is None,
{
    if first_match(rules, pkt) is Some {
        let i = lemma_match_index(rules, pkt);
        assert(rules[i].action == Action::Deny);
    }
}

/// Without a configuration every packet is relayed, and none of its addresses
/// and ports are asked to change.
pub proof fn allow_all_relays_everything(pkt: PacketInfo)
    ensures
        allowing_rule(seq![allow_everything()], pkt) == Some(allow_everything()),
{
    let rules = seq![allow_everything()];
    assert(rules[0].admits(pkt));
}

/// The rule that a packet is relayed by, and whose NAT options are applied, is
/// the first one that the packet satisfies, if that rule allows it. If that
/// rule denies it, the packet is not relayed.
pub proof fn first_match_decides(rules: Seq<RuleView>, pkt: PacketInfo, i: int)
    requires
        0 <= i < rules.len(),
        rules[i].admits(pkt),
        forall|j: int| 0 <= j < i ==> !(#[trigger] rules[j]).admits(pkt),
    ensures
        rules[i].action == Action::Allow ==> allowing_rule(rules, pkt) == Some(rules[i]),
        rules[i].action == Action::Deny ==> allowing_rule(rules, pkt) is None,
{
    first_match_wins(rules, pkt, i);
}

/// A packet that satisfies no rule has no match and is not relayed.
pub proof fn no_match_is_denied(rules: Seq<RuleView>, pkt: PacketInfo)
    requires
        forall|j: int| 0 <= j < rules.len() ==> !(#[trigger] rules[j]).admits(pkt),
    ensures
        first_match(rules, pkt) is None,
        allowing_rule(rules, pkt) is None,
{
    if first_match(rules, pkt) is Some {
        let i = lemma_match_index(rules, pkt);
        assert(rules[i].admits(pkt));
    }
}

} // verus!
