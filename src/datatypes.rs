use vstd::prelude::*;

pub mod effects;
pub mod rule;

use crate::pattern::Pattern;

verus! {

/// One action of a rule, with the optional message that is logged with it.
///
/// Actions are ordered by severity, `Accept < Alert < Drop`; two actions of
/// the same kind are ordered by their messages (no message first, then
/// lexicographically by characters).
#[derive(Debug, PartialEq, Eq)]
pub enum Action {
    Accept(Option<String>),
    Alert(Option<String>),
    Drop(Option<String>),
}

/// A single effect of a rule: an action, a list of tags or a list of flow names to set.
#[derive(Debug, PartialEq, Eq)]
pub enum Effect {
    Action(Action),
    Tag(Vec<String>),
    FlowSet(Vec<String>),
}

/// The combined effects of one rule, or of all the rules that matched one input.
///
/// `tags` and `flow_sets` hold each string once, in the order in which it was
/// first seen.
#[derive(Debug, PartialEq, Eq)]
pub struct Effects {
    pub action: Option<Action>,
    pub tags: Vec<String>,
    pub flow_sets: Vec<String>,
}

/// The mathematical value of an [`Action`].
pub enum ActionView {
    Accept(Option<Seq<char>>),
    Alert(Option<Seq<char>>),
    Drop(Option<Seq<char>>),
}

/// The mathematical value of an [`Effect`].
pub enum EffectView {
    Action(ActionView),
    Tag(Seq<Seq<char>>),
    FlowSet(Seq<Seq<char>>),
}

/// The mathematical value of an [`Effects`].
pub struct EffectsView {
    pub action: Option<ActionView>,
    pub tags: Seq<Seq<char>>,
    pub flow_sets: Seq<Seq<char>>,
}

/// The text of an optional message.
pub open spec fn message_view(m: Option<String>) -> Option<Seq<char>> {
    match m {
        Some(s) => Some(s@),
        None => None,
    }
}

impl View for Action {
    type V = ActionView;

    open spec fn view(&self) -> ActionView {
        match self {
            Action::Accept(m) => ActionView::Accept(message_view(*m)),
            Action::Alert(m) => ActionView::Alert(message_view(*m)),
            Action::Drop(m) => ActionView::Drop(message_view(*m)),
        }
    }
}

/// The value of an optional action.
pub open spec fn action_option_view(a: Option<Action>) -> Option<ActionView> {
    match a {
        Some(x) => Some(x@),
        None => None,
    }
}

impl View for Effect {
    type V = EffectView;

    open spec fn view(&self) -> EffectView {
        match self {
            Effect::Action(a) => EffectView::Action(a@),
            Effect::Tag(t) => EffectView::Tag(t.deep_view()),
            Effect::FlowSet(f) => EffectView::FlowSet(f.deep_view()),
        }
    }
}

impl View for Effects {
    type V = EffectsView;

    open spec fn view(&self) -> EffectsView {
        EffectsView {
            action: action_option_view(self.action),
            tags: self.tags.deep_view(),
            flow_sets: self.flow_sets.deep_view(),
        }
    }
}


/// A port number.
pub type Port = u16;

/// How a rule names a port: every port, or one port.
#[derive(Debug, Clone, Copy, PartialEq, Eq, Structural)]
pub enum RulePort {
    Specific(Port),
    All,
}

/// The two ports a rule is scoped to: ours (local) and theirs (remote).
#[derive(Debug, Clone, Copy, PartialEq, Eq, Structural)]
pub struct RulePorts {
    pub ours: RulePort,
    pub theirs: RulePort,
}

/// The direction a rule applies to, with its ports.
#[derive(Debug, Clone, Copy, PartialEq, Eq, Structural)]
pub enum Direction {
    InBound(RulePorts),
    OutBound(RulePorts),
}

/// The direction of an observed exchange.
#[derive(Debug, Clone, Copy, PartialEq, Eq, Structural)]
pub enum ProxyDirection {
    InBound,
    OutBound,
}

/// A condition of a rule: a flow name that must be set, or a pattern that
/// must match the payload bytes.
#[derive(Debug)]
pub enum Matcher {
    FlowIsSet(String),
    Regex(Pattern),
}

/// The mathematical value of a [`Matcher`]; a pattern is its text.
pub enum MatcherView {
    FlowIsSet(Seq<char>),
    Regex(Seq<char>),
}

impl View for Matcher {
    type V = MatcherView;

    open spec fn view(&self) -> MatcherView {
        match self {
            Matcher::FlowIsSet(s) => MatcherView::FlowIsSet(s@),
            Matcher::Regex(p) => MatcherView::Regex(p@),
        }
    }
}

/// A rule: its effects, the direction and ports it is scoped to, and the
/// conditions that must all hold.
#[derive(Debug)]
pub struct Rule {
    pub effects: Effects,
    pub direction: Direction,
    pub matchers: Vec<Matcher>,
}

/// The mathematical value of a [`Rule`].
pub struct RuleView {
    pub effects: EffectsView,
    pub direction: Direction,
    pub matchers: Seq<MatcherView>,
}

/// The values of a list of matchers.
pub open spec fn matchers_view(m: Seq<Matcher>) -> Seq<MatcherView> {
    m.map_values(|x: Matcher| x@)
}

impl View for Rule {
    type V = RuleView;

    open spec fn view(&self) -> RuleView {
        RuleView {
            effects: self.effects@,
            direction: self.direction,
            matchers: matchers_view(self.matchers@),
        }
    }
}

/// A rule set, in the order of the rule text.
pub type Rules = Vec<Rule>;

/// The values of a list of rules.
pub open spec fn rules_view(r: Seq<Rule>) -> Seq<RuleView> {
    r.map_values(|x: Rule| x@)
}

} // verus!
