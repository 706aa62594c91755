use vstd::prelude::*;

use super::effects::{
    action_option_le, combine, empty_effects, equivalent, lemma_action_option_le_antisymmetric,
    lemma_action_option_le_trans, lemma_worse_is_upper_bound, union_seq,
};
use super::{
    Action, ActionView, Direction, Effects, EffectsView, Matcher, MatcherView, ProxyDirection, Rule, RulePort,
    RulePorts, RuleView, matchers_view, rules_view,
};
use crate::pattern::{regex_is_match, regex_matches};

verus! {

// ---------------------------------------------------------------------------
// What a rule matches
// ---------------------------------------------------------------------------

pub open spec fn port_matches(p: RulePort, actual: u16) -> bool {
    match p {
        RulePort::All => true,
        RulePort::Specific(x) => x == actual,
    }
}

/// Our port must fit `ours` and their port must fit `theirs`.
pub open spec fn ports_match(rp: RulePorts, home_port: u16, out_port: u16) -> bool {
    port_matches(rp.ours, home_port) && port_matches(rp.theirs, out_port)
}

/// The rule's direction is the exchange's, and its ports fit.
pub open spec fn direction_matches(
    d: Direction,
    connection: ProxyDirection,
    home_port: u16,
    out_port: u16,
) -> bool {
    match d {
        Direction::InBound(rp) => connection == ProxyDirection::InBound && ports_match(
            rp,
            home_port,
            out_port,
        ),
        Direction::OutBound(rp) => connection == ProxyDirection::OutBound && ports_match(
            rp,
            home_port,
            out_port,
        ),
    }
}

/// A pattern matches the payload bytes; a flow name is among the set flows.
pub open spec fn matcher_holds(m: MatcherView, data: Seq<u8>, flowbits: Seq<Seq<char>>) -> bool {
    match m {
        MatcherView::Regex(p) => regex_is_match(p, data),
        MatcherView::FlowIsSet(name) => flowbits.contains(name),
    }
}

/// Every condition of the list holds.
pub open spec fn all_hold(ms: Seq<MatcherView>, data: Seq<u8>, flowbits: Seq<Seq<char>>) -> bool {
    forall|i: int| 0 <= i < ms.len() ==> matcher_holds(#[trigger] ms[i], data, flowbits)
}

/// A condition holds, given whether its pattern (if it has one) matched.
pub open spec fn condition_holds(m: MatcherView, content_match: bool, flowbits: Seq<Seq<char>>) -> bool {
    match m {
        MatcherView::Regex(_) => content_match,
        MatcherView::FlowIsSet(name) => flowbits.contains(name),
    }
}

/// `content_match` is the result of the condition's pattern, if it has one.
pub open spec fn pattern_result(m: MatcherView, content_match: bool, data: Seq<u8>) -> bool {
    match m {
        MatcherView::Regex(p) => content_match == regex_is_match(p, data),
        MatcherView::FlowIsSet(_) => true,
    }
}

/// The rule applies to an exchange on which its patterns gave `content_matches`.
pub open spec fn decided(
    r: RuleView,
    content_matches: Seq<bool>,
    home_port: u16,
    out_port: u16,
    direction: ProxyDirection,
    flowbits: Seq<Seq<char>>,
) -> bool {
    direction_matches(r.direction, direction, home_port, out_port) && forall|i: int|
        0 <= i < r.matchers.len() ==> condition_holds(#[trigger] r.matchers[i], content_matches[i], flowbits)
}

/// The rule applies to the exchange: direction, ports and every condition.
pub open spec fn rule_matches(
    r: RuleView,
    data: Seq<u8>,
    home_port: u16,
    out_port: u16,
    direction: ProxyDirection,
    flowbits: Seq<Seq<char>>,
) -> bool {
    direction_matches(r.direction, direction, home_port, out_port) && all_hold(
        r.matchers,
        data,
        flowbits,
    )
}

/// The effects of the rule where it applies to the exchange, else nothing.
pub open spec fn apply_rule(
    r: RuleView,
    data: Seq<u8>,
    home_port: u16,
    out_port: u16,
    direction: ProxyDirection,
    flowbits: Seq<Seq<char>>,
) -> Option<EffectsView> {
    if rule_matches(r, data, home_port, out_port, direction, flowbits) {
        Some(r.effects)
    } else {
        None
    }
}

/// The combination of the effects of every rule that applies, starting
/// from the empty effects.
pub open spec fn evaluate_rules(
    rules: Seq<RuleView>,
    data: Seq<u8>,
    home_port: u16,
    out_port: u16,
    direction: ProxyDirection,
    flowbits: Seq<Seq<char>>,
) -> EffectsView
    decreases rules.len(),
{
    if rules.len() == 0 {
        empty_effects()
    } else {
        let acc = evaluate_rules(rules.drop_last(), data, home_port, out_port, direction, flowbits);
        match apply_rule(rules.last(), data, home_port, out_port, direction, flowbits) {
            Some(e) => combine(acc, e),
            None => acc,
        }
    }
}

fn match_ports(rule_ports: &RulePorts, home_port: u16, out_port: u16) -> (r: bool)
    ensures
        r == ports_match(*rule_ports, home_port, out_port),
{
    if matches!(rule_ports.ours, RulePort::Specific(p) if p != home_port) {
        false
    } else if matches!(rule_ports.theirs, RulePort::Specific(p) if p != out_port) {
        false
    } else {
        true
    }
}

fn match_direction(direction: &Direction, connection: ProxyDirection, home_port: u16, out_port: u16) -> (r: bool)
    ensures
        r == direction_matches(*direction, connection, home_port, out_port),
{
    match direction {
        Direction::InBound(rps) => matches!(connection, ProxyDirection::InBound) && match_ports(
            rps,
            home_port,
            out_port,
        ),
        Direction::OutBound(rps) => matches!(connection, ProxyDirection::OutBound) && match_ports(
            rps,
            home_port,
            out_port,
        ),
    }
}

/// Whether `name` is among `flowbits`.
fn flow_is_set(flowbits: &Vec<String>, name: &String) -> (r: bool)
    ensures
        r == flowbits.deep_view().contains(name@),
{
    let mut i: usize = 0;
    while i < flowbits.len()
        invariant
            i <= flowbits.len(),
            forall|j: int| 0 <= j < i ==> flowbits@[j]@ != name@,
        decreases flowbits.len() - i,
    {
        if flowbits[i] == *name {
            assert(flowbits.deep_view()[i as int] == name@);
            return true;
        }
        i = i + 1;
    }
    proof {
        if flowbits.deep_view().contains(name@) {
            let j = choose|j: int| 0 <= j < flowbits.deep_view().len() && flowbits.deep_view()[j] == name@;
            assert(flowbits@[j]@ == name@);
        }
    }
    false
}

impl Rule {
    pub fn new(effects: Effects, direction: Direction, matchers: Vec<Matcher>) -> (r: Rule)
        ensures
            r@ == (RuleView { effects: effects@, direction, matchers: matchers_view(matchers@) }),
    {
        Rule { effects, direction, matchers }
    }

    /// A rule that accepts, with an empty message, every inbound exchange.
    pub fn empty() -> (r: Rule)
        ensures
            r@.effects == (EffectsView {
                action: Some(ActionView::Accept(Some(Seq::empty()))),
                ..empty_effects()
            }),
            r@.direction == Direction::InBound(RulePorts { ours: RulePort::All, theirs: RulePort::All }),
            r@.matchers.len() == 0,
    {
        let r = Rule {
            effects: Effects::empty().with_action(Action::Accept(Some(String::new()))),
            direction: Direction::InBound(RulePorts { ours: RulePort::All, theirs: RulePort::All }),
            matchers: Vec::new(),
        };
        r
    }

    pub fn with_effects(self, effects: Effects) -> (r: Rule)
        ensures
            r@ == (RuleView { effects: effects@, ..self@ }),
    {
        Rule { effects, ..self }
    }

    pub fn with_action(self, action: Action) -> (r: Rule)
        ensures
            r@ == (RuleView {
                effects: EffectsView { action: Some(action@), ..self@.effects },
                ..self@
            }),
    {
        let Rule { effects, direction, matchers } = self;
        Rule { effects: effects.with_action(action), direction, matchers }
    }

    pub fn with_tags(self, tags: Vec<String>) -> (r: Rule)
        ensures
            r@ == (RuleView {
                effects: EffectsView {
                    tags: union_seq(self@.effects.tags, tags.deep_view()),
                    ..self@.effects
                },
                ..self@
            }),
    {
        let Rule { effects, direction, matchers } = self;
        Rule { effects: effects.with_tags(tags), direction, matchers }
    }

    pub fn with_flow_sets(self, flow_sets: Vec<String>) -> (r: Rule)
        ensures
            r@ == (RuleView {
                effects: EffectsView {
                    flow_sets: union_seq(self@.effects.flow_sets, flow_sets.deep_view()),
                    ..self@.effects
                },
                ..self@
            }),
    {
        let Rule { effects, direction, matchers } = self;
        Rule { effects: effects.with_flow_sets(flow_sets), direction, matchers }
    }

    pub fn with_direction(self, direction: Direction) -> (r: Rule)
        ensures
            r@ == (RuleView { direction, ..self@ }),
    {
        Rule { direction, ..self }
    }

    pub fn with_matchers(self, matchers: Vec<Matcher>) -> (r: Rule)
        ensures
            r@ == (RuleView { matchers: matchers_view(matchers@), ..self@ }),
    {
        Rule { matchers, ..self }
    }

    /// Decides the rule on given pattern results: `content_matches[i]` says
    /// whether the pattern of matcher `i` matches the payload; it is not read
    /// for the other matchers. The rule's effects where the exchange is in the
    /// rule's direction, the ports fit and every condition holds; otherwise nothing.
    pub fn decide(
        &self,
        content_matches: &Vec<bool>,
        home_port: u16,
        out_port: u16,
        direction: ProxyDirection,
        flowbits: &Vec<String>,
    ) -> (r: Option<Effects>)
        requires
            content_matches.len() == self.matchers.len(),
        ensures
            r is Some <==> decided(self@, content_matches@, home_port, out_port, direction, flowbits.deep_view()),
            r matches Some(e) ==> e@ == self@.effects,
    {
        if !match_direction(&self.direction, direction, home_port, out_port) {
            return None;
        }
        let mut i: usize = 0;
        while i < self.matchers.len()
            invariant
                i <= self.matchers.len(),
                content_matches.len() == self.matchers.len(),
                forall|j: int| 0 <= j < i ==> condition_holds(
                    #[trigger] self@.matchers[j],
                    content_matches@[j],
                    flowbits.deep_view(),
                ),
            decreases self.matchers.len() - i,
        {
            let holds = match &self.matchers[i] {
                Matcher::Regex(_) => content_matches[i],
                Matcher::FlowIsSet(name) => flow_is_set(flowbits, name),
            };
            if !holds {
                assert(!condition_holds(self@.matchers[i as int], content_matches@[i as int], flowbits.deep_view()));
                return None;
            }
            i = i + 1;
        }
        Some(self.effects.clone())
    }

    /// The rule's effects where the exchange is in the rule's direction, the
    /// ports fit and every condition holds; otherwise nothing.
    pub fn apply(
        &self,
        data: &[u8],
        home_port: u16,
        out_port: u16,
        direction: ProxyDirection,
        flowbits: &Vec<String>,
    ) -> (r: Option<Effects>)
        ensures
            match r {
                Some(e) => apply_rule(self@, data@, home_port, out_port, direction, flowbits.deep_view()) == Some(e@),
                None => apply_rule(self@, data@, home_port, out_port, direction, flowbits.deep_view()) is None,
            },
    {
        if !match_direction(&self.direction, direction, home_port, out_port) {
            return None;
        }
        let mut content_matches: Vec<bool> = Vec::new();
        let mut i: usize = 0;
        while i < self.matchers.len()
            invariant
                i <= self.matchers.len(),
                content_matches.len() == i,
                forall|j: int| 0 <= j < i ==> pattern_result(
                    #[trigger] self@.matchers[j],
                    content_matches@[j],
                    data@,
                ),
            decreases self.matchers.len() - i,
        {
            let m = match &self.matchers[i] {
                Matcher::Regex(p) => regex_matches(p, data),
                Matcher::FlowIsSet(_) => false,
            };
            content_matches.push(m);
            i = i + 1;
        }
        let r = self.decide(&content_matches, home_port, out_port, direction, flowbits);
        proof {
            assert forall|j: int| 0 <= j < self@.matchers.len() implies condition_holds(
                #[trigger] self@.matchers[j],
                content_matches@[j],
                flowbits.deep_view(),
            ) == matcher_holds(self@.matchers[j], data@, flowbits.deep_view()) by {
                assert(pattern_result(self@.matchers[j], content_matches@[j], data@));
            }
            if decided(self@, content_matches@, home_port, out_port, direction, flowbits.deep_view()) {
                assert forall|j: int| 0 <= j < self@.matchers.len() implies matcher_holds(
                    #[trigger] self@.matchers[j],
                    data@,
                    flowbits.deep_view(),
                ) by {
                    assert(condition_holds(self@.matchers[j], content_matches@[j], flowbits.deep_view()));
                }
            }
            if rule_matches(self@, data@, home_port, out_port, direction, flowbits.deep_view()) {
                assert forall|j: int| 0 <= j < self@.matchers.len() implies condition_holds(
                    #[trigger] self@.matchers[j],
                    content_matches@[j],
                    flowbits.deep_view(),
                ) by {
                    assert(matcher_holds(self@.matchers[j], data@, flowbits.deep_view()));
                }
            }
        }
        r
    }
}

/// Applies every rule to one exchange and combines the effects of those that
/// apply; with none, the result has no action and no tags or flows.
pub fn evaluate(
    rules: &Vec<Rule>,
    data: &[u8],
    home_port: u16,
    out_port: u16,
    direction: ProxyDirection,
    flowbits: &Vec<String>,
) -> (r: Effects)
    ensures
        r@ == evaluate_rules(rules_view(rules@), data@, home_port, out_port, direction, flowbits.deep_view()),
{
    let mut acc = Effects::empty();
    let mut i: usize = 0;
    assert(rules_view(rules@).take(0).len() == 0);
    while i < rules.len()
        invariant
            i <= rules.len(),
            acc@ == evaluate_rules(rules_view(rules@).take(i as int), data@, home_port, out_port, direction, flowbits.deep_view()),
        decreases rules.len() - i,
    {
        let ghost prefix = rules_view(rules@).take(i + 1);
        assert(prefix.drop_last() =~= rules_view(rules@).take(i as int));
        assert(prefix.last() == rules@[i as int]@);
        match rules[i].apply(data, home_port, out_port, direction, flowbits) {
            Some(e) => {
                acc = acc.combine(e);
            },
            None => {},
        }
        i = i + 1;
    }
    assert(rules_view(rules@).take(rules.len() as int) =~= rules_view(rules@));
    acc
}


// ---------------------------------------------------------------------------
// Laws of matching
// ---------------------------------------------------------------------------

/// A rule declared inbound never applies to an outbound exchange, and a rule
/// declared outbound never applies to an inbound one, whatever the ports,
/// payload and flows.
pub proof fn lemma_direction_gate(
    r: RuleView,
    data: Seq<u8>,
    home_port: u16,
    out_port: u16,
    flowbits: Seq<Seq<char>>,
)
    ensures
        r.direction is InBound ==> apply_rule(r, data, home_port, out_port, ProxyDirection::OutBound, flowbits) is None,
        r.direction is OutBound ==> apply_rule(r, data, home_port, out_port, ProxyDirection::InBound, flowbits) is None,
{
}

/// The ports a direction is scoped to.
pub open spec fn ports_of(d: Direction) -> RulePorts {
    match d {
        Direction::InBound(rp) => rp,
        Direction::OutBound(rp) => rp,
    }
}

/// A rule whose own port is `Specific(p)` applies only where our port is
/// `p`; likewise for their port.
pub proof fn lemma_specific_port_gate(
    r: RuleView,
    p: u16,
    data: Seq<u8>,
    home_port: u16,
    out_port: u16,
    direction: ProxyDirection,
    flowbits: Seq<Seq<char>>,
)
    ensures
        ports_of(r.direction).ours == RulePort::Specific(p) && rule_matches(r, data, home_port, out_port, direction, flowbits) ==> home_port == p,
        ports_of(r.direction).theirs == RulePort::Specific(p) && rule_matches(r, data, home_port, out_port, direction, flowbits) ==> out_port == p,
{
}

/// A rule whose own port is `All` applies alike on every one of our ports;
/// likewise for their port.
pub proof fn lemma_all_port_gate(
    r: RuleView,
    data: Seq<u8>,
    home_port: u16,
    other_home_port: u16,
    out_port: u16,
    other_out_port: u16,
    direction: ProxyDirection,
    flowbits: Seq<Seq<char>>,
)
    ensures
        ports_of(r.direction).ours == RulePort::All ==> rule_matches(r, data, home_port, out_port, direction, flowbits)
            == rule_matches(r, data, other_home_port, out_port, direction, flowbits),
        ports_of(r.direction).theirs == RulePort::All ==> rule_matches(r, data, home_port, out_port, direction, flowbits)
            == rule_matches(r, data, home_port, other_out_port, direction, flowbits),
{
}

/// A `SET(name)` condition holds exactly when `name` is among the set flows,
/// whatever the payload.
pub proof fn lemma_flow_condition(name: Seq<char>, data: Seq<u8>, flowbits: Seq<Seq<char>>)
    ensures
        matcher_holds(MatcherView::FlowIsSet(name), data, flowbits) == flowbits.contains(name),
        !matcher_holds(MatcherView::FlowIsSet(name), data, Seq::empty()),
{
}

/// The evaluation of a rule set yields the worst action of the rules that
/// apply and holds the tags of exactly those rules, each once.
pub proof fn lemma_evaluate_tags(
    rules: Seq<RuleView>,
    data: Seq<u8>,
    home_port: u16,
    out_port: u16,
    direction: ProxyDirection,
    flowbits: Seq<Seq<char>>,
    x: Seq<char>,
)
    ensures
        evaluate_rules(rules, data, home_port, out_port, direction, flowbits).tags.contains(x) <==> exists|i: int|
            0 <= i < rules.len() && rule_matches(#[trigger] rules[i], data, home_port, out_port, direction, flowbits)
                && rules[i].effects.tags.contains(x),
        evaluate_rules(rules, data, home_port, out_port, direction, flowbits).flow_sets.contains(x) <==> exists|i: int|
            0 <= i < rules.len() && rule_matches(#[trigger] rules[i], data, home_port, out_port, direction, flowbits)
                && rules[i].effects.flow_sets.contains(x),
        evaluate_rules(rules, data, home_port, out_port, direction, flowbits).tags.no_duplicates(),
        evaluate_rules(rules, data, home_port, out_port, direction, flowbits).flow_sets.no_duplicates(),
    decreases rules.len(),
{
    let ev = evaluate_rules(rules, data, home_port, out_port, direction, flowbits);
    if rules.len() > 0 {
        let prev = rules.drop_last();
        lemma_evaluate_tags(prev, data, home_port, out_port, direction, flowbits, x);
        let acc = evaluate_rules(prev, data, home_port, out_port, direction, flowbits);
        if rule_matches(rules.last(), data, home_port, out_port, direction, flowbits) {
            crate::datatypes::effects::lemma_combine_union(acc, rules.last().effects, x);
        }
        let m = |i: int| rule_matches(rules[i], data, home_port, out_port, direction, flowbits);
        if exists|i: int| 0 <= i < prev.len() && rule_matches(#[trigger] prev[i], data, home_port, out_port, direction, flowbits)
            && prev[i].effects.tags.contains(x) {
            let i = choose|i: int| 0 <= i < prev.len() && rule_matches(#[trigger] prev[i], data, home_port, out_port, direction, flowbits)
                && prev[i].effects.tags.contains(x);
            assert(rules[i] == prev[i]);
        }
        if exists|i: int| 0 <= i < prev.len() && rule_matches(#[trigger] prev[i], data, home_port, out_port, direction, flowbits)
            && prev[i].effects.flow_sets.contains(x) {
            let i = choose|i: int| 0 <= i < prev.len() && rule_matches(#[trigger] prev[i], data, home_port, out_port, direction, flowbits)
                && prev[i].effects.flow_sets.contains(x);
            assert(rules[i] == prev[i]);
        }
        if exists|i: int| 0 <= i < rules.len() && rule_matches(#[trigger] rules[i], data, home_port, out_port, direction, flowbits)
            && rules[i].effects.tags.contains(x) {
            let i = choose|i: int| 0 <= i < rules.len() && rule_matches(#[trigger] rules[i], data, home_port, out_port, direction, flowbits)
                && rules[i].effects.tags.contains(x);
            if i < prev.len() {
                assert(rules[i] == prev[i]);
            }
        }
        if exists|i: int| 0 <= i < rules.len() && rule_matches(#[trigger] rules[i], data, home_port, out_port, direction, flowbits)
            && rules[i].effects.flow_sets.contains(x) {
            let i = choose|i: int| 0 <= i < rules.len() && rule_matches(#[trigger] rules[i], data, home_port, out_port, direction, flowbits)
                && rules[i].effects.flow_sets.contains(x);
            if i < prev.len() {
                assert(rules[i] == prev[i]);
            }
        }
        if !rule_matches(rules.last(), data, home_port, out_port, direction, flowbits) {
            assert(ev == acc);
        }
    }
}


/// The action of an evaluation is the worst action of the rules that apply:
/// it is the action of one of them, and none of them has a worse one. With
/// the order of actions total, this fixes the action whatever the order of
/// the rules.
pub proof fn lemma_evaluate_action(
    rules: Seq<RuleView>,
    data: Seq<u8>,
    home_port: u16,
    out_port: u16,
    direction: ProxyDirection,
    flowbits: Seq<Seq<char>>,
)
    ensures
        forall|i: int|
            0 <= i < rules.len() && rule_matches(#[trigger] rules[i], data, home_port, out_port, direction, flowbits)
                ==> action_option_le(
                rules[i].effects.action,
                evaluate_rules(rules, data, home_port, out_port, direction, flowbits).action,
            ),
        evaluate_rules(rules, data, home_port, out_port, direction, flowbits).action is Some ==> exists|i: int|
            0 <= i < rules.len() && rule_matches(#[trigger] rules[i], data, home_port, out_port, direction, flowbits)
                && rules[i].effects.action == evaluate_rules(rules, data, home_port, out_port, direction, flowbits).action,
    decreases rules.len(),
{
    let ev = evaluate_rules(rules, data, home_port, out_port, direction, flowbits);
    if rules.len() > 0 {
        let prev = rules.drop_last();
        lemma_evaluate_action(prev, data, home_port, out_port, direction, flowbits);
        let acc = evaluate_rules(prev, data, home_port, out_port, direction, flowbits);
        let last = rules.last();
        let matched = rule_matches(last, data, home_port, out_port, direction, flowbits);
        if matched {
            lemma_worse_is_upper_bound(acc.action, last.effects.action);
        }
        assert forall|i: int|
            0 <= i < rules.len() && rule_matches(#[trigger] rules[i], data, home_port, out_port, direction, flowbits)
            implies action_option_le(rules[i].effects.action, ev.action) by {
            if i < prev.len() {
                assert(rules[i] == prev[i]);
                if matched {
                    lemma_action_option_le_trans(rules[i].effects.action, acc.action, ev.action);
                }
            }
        }
        if ev.action is Some {
            if matched && ev.action == last.effects.action {
                assert(rules[rules.len() - 1] == last);
            } else {
                let i = choose|i: int|
                    0 <= i < prev.len() && rule_matches(#[trigger] prev[i], data, home_port, out_port, direction, flowbits)
                        && prev[i].effects.action == acc.action;
                assert(rules[i] == prev[i]);
            }
        }
    }
}


/// The outcome of an evaluation does not depend on the order of the rules,
/// nor on a rule written twice: two rule sets that hold the same rules yield
/// the same action and the same tags and flow names.
pub proof fn lemma_evaluate_order_independent(
    a: Seq<RuleView>,
    b: Seq<RuleView>,
    data: Seq<u8>,
    home_port: u16,
    out_port: u16,
    direction: ProxyDirection,
    flowbits: Seq<Seq<char>>,
)
    requires
        forall|r: RuleView| a.contains(r) <==> b.contains(r),
    ensures
        equivalent(
            evaluate_rules(a, data, home_port, out_port, direction, flowbits),
            evaluate_rules(b, data, home_port, out_port, direction, flowbits),
        ),
{
    let ea = evaluate_rules(a, data, home_port, out_port, direction, flowbits);
    let eb = evaluate_rules(b, data, home_port, out_port, direction, flowbits);
    lemma_evaluate_action(a, data, home_port, out_port, direction, flowbits);
    lemma_evaluate_action(b, data, home_port, out_port, direction, flowbits);
    // each action found on one side is bounded by the other side's result
    if ea.action is Some {
        let i = choose|i: int|
            0 <= i < a.len() && rule_matches(#[trigger] a[i], data, home_port, out_port, direction, flowbits)
                && a[i].effects.action == ea.action;
        assert(a.contains(a[i]));
        let j = choose|j: int| 0 <= j < b.len() && b[j] == a[i];
        assert(rule_matches(b[j], data, home_port, out_port, direction, flowbits));
        assert(action_option_le(ea.action, eb.action));
    }
    if eb.action is Some {
        let j = choose|j: int|
            0 <= j < b.len() && rule_matches(#[trigger] b[j], data, home_port, out_port, direction, flowbits)
                && b[j].effects.action == eb.action;
        assert(b.contains(b[j]));
        let i = choose|i: int| 0 <= i < a.len() && a[i] == b[j];
        assert(rule_matches(a[i], data, home_port, out_port, direction, flowbits));
        assert(action_option_le(eb.action, ea.action));
    }
    if ea.action is Some && eb.action is Some {
        lemma_action_option_le_antisymmetric(ea.action, eb.action);
    }
    assert forall|x: Seq<char>| #[trigger] ea.tags.to_set().contains(x) <==> eb.tags.to_set().contains(x) by {
        lemma_evaluate_tags(a, data, home_port, out_port, direction, flowbits, x);
        lemma_evaluate_tags(b, data, home_port, out_port, direction, flowbits, x);
        if ea.tags.contains(x) {
            let i = choose|i: int|
                0 <= i < a.len() && rule_matches(#[trigger] a[i], data, home_port, out_port, direction, flowbits)
                    && a[i].effects.tags.contains(x);
            assert(a.contains(a[i]));
            let j = choose|j: int| 0 <= j < b.len() && b[j] == a[i];
            assert(rule_matches(b[j], data, home_port, out_port, direction, flowbits));
        }
        if eb.tags.contains(x) {
            let j = choose|j: int|
                0 <= j < b.len() && rule_matches(#[trigger] b[j], data, home_port, out_port, direction, flowbits)
                    && b[j].effects.tags.contains(x);
            assert(b.contains(b[j]));
            let i = choose|i: int| 0 <= i < a.len() && a[i] == b[j];
            assert(rule_matches(a[i], data, home_port, out_port, direction, flowbits));
        }
    }
    assert forall|x: Seq<char>| #[trigger] ea.flow_sets.to_set().contains(x) <==> eb.flow_sets.to_set().contains(x) by {
        lemma_evaluate_tags(a, data, home_port, out_port, direction, flowbits, x);
        lemma_evaluate_tags(b, data, home_port, out_port, direction, flowbits, x);
        if ea.flow_sets.contains(x) {
            let i = choose|i: int|
                0 <= i < a.len() && rule_matches(#[trigger] a[i], data, home_port, out_port, direction, flowbits)
                    && a[i].effects.flow_sets.contains(x);
            assert(a.contains(a[i]));
            let j = choose|j: int| 0 <= j < b.len() && b[j] == a[i];
            assert(rule_matches(b[j], data, home_port, out_port, direction, flowbits));
        }
        if eb.flow_sets.contains(x) {
            let j = choose|j: int|
                0 <= j < b.len() && rule_matches(#[trigger] b[j], data, home_port, out_port, direction, flowbits)
                    && b[j].effects.flow_sets.contains(x);
            assert(b.contains(b[j]));
            let i = choose|i: int| 0 <= i < a.len() && a[i] == b[j];
            assert(rule_matches(a[i], data, home_port, out_port, direction, flowbits));
        }
    }
    assert(ea.tags.to_set() =~= eb.tags.to_set());
    assert(ea.flow_sets.to_set() =~= eb.flow_sets.to_set());
}

} // verus!
