//! The rule language, stated as functions on character sequences.
//!
//! ```text
//! ruleset   := rule (";" rule)* ";"?
//! rule      := effects ws ":" direction ":" ws matchers ws ";"
//! effects   := effect (ws+ effect)*
//! effect    := action | "TAGS" strings | "FLOWS" strings
//! action    := ("ACCEPT" | "ALERT" | "DROP") ("(" quoted ")")?
//! strings   := "(" ws (quoted ws ("," ws quoted ws)*)? ")"
//! direction := ws ("IN" | "OUT") ws ("(" ports ")" ws)?
//! ports     := slot ("," slot)?
//! slot      := ws digits? ws
//! matchers  := matcher (ws+ matcher)*
//! matcher   := quoted | "SET" "(" quoted ")"
//! quoted    := '"' ('\' any | [^\\"])* '"'
//! ```
//!
//! `ws` is any run of space, tab, carriage return and line feed.
use vstd::prelude::*;

use crate::datatypes::effects::{combine, effect_to_effects, empty_effects};
use crate::datatypes::{
    ActionView, Direction, EffectView, EffectsView, MatcherView, RulePort, RulePorts, RuleView,
};
use crate::pattern::regex_compiles;

verus! {

/// What the parser expected where it failed.
#[derive(Debug, Clone, Copy, PartialEq, Eq, Structural)]
pub enum ErrorKind {
    /// This character.
    ExpectedChar(char),
    /// `ACCEPT`, `ALERT`, `DROP`, `TAGS` or `FLOWS`.
    ExpectedEffect,
    /// `IN` or `OUT`.
    ExpectedDirection,
    /// A quoted pattern or `SET`.
    ExpectedMatcher,
    /// A port number above 65535.
    PortOutOfRange,
    /// A quoted pattern that is not a valid regular expression.
    InvalidPattern,
    /// Text after the end of the rule.
    SuperfluousData,
}

/// A parse failure: where, counted in characters, and what was expected.
#[derive(Debug, Clone, Copy, PartialEq, Eq, Structural)]
pub struct SyntaxError {
    pub position: usize,
    pub kind: ErrorKind,
}

pub open spec fn fail(pos: int, kind: ErrorKind) -> SyntaxError {
    SyntaxError { position: pos as usize, kind }
}

pub open spec fn is_ws(c: char) -> bool {
    c == ' ' || c == '\t' || c == '\r' || c == '\n'
}

pub open spec fn char_at(s: Seq<char>, i: int, c: char) -> bool {
    0 <= i < s.len() && s[i] == c
}

pub open spec fn has_keyword(s: Seq<char>, i: int, kw: Seq<char>) -> bool {
    0 <= i && i + kw.len() <= s.len() && s.subrange(i, i + kw.len()) == kw
}

pub open spec fn kw_accept() -> Seq<char> {
    seq!['A', 'C', 'C', 'E', 'P', 'T']
}

pub open spec fn kw_alert() -> Seq<char> {
    seq!['A', 'L', 'E', 'R', 'T']
}

pub open spec fn kw_drop() -> Seq<char> {
    seq!['D', 'R', 'O', 'P']
}

pub open spec fn kw_tags() -> Seq<char> {
    seq!['T', 'A', 'G', 'S']
}

pub open spec fn kw_flows() -> Seq<char> {
    seq!['F', 'L', 'O', 'W', 'S']
}

pub open spec fn kw_in() -> Seq<char> {
    seq!['I', 'N']
}

pub open spec fn kw_out() -> Seq<char> {
    seq!['O', 'U', 'T']
}

pub open spec fn kw_set() -> Seq<char> {
    seq!['S', 'E', 'T']
}

/// The first position at or after `i` that holds no whitespace.
pub open spec fn skip_ws(s: Seq<char>, i: int) -> int
    decreases s.len() - i,
{
    if 0 <= i < s.len() && is_ws(s[i]) {
        skip_ws(s, i + 1)
    } else {
        i
    }
}

pub proof fn lemma_skip_ws(s: Seq<char>, i: int)
    requires
        0 <= i <= s.len(),
    ensures
        i <= skip_ws(s, i) <= s.len(),
        forall|j: int| i <= j < skip_ws(s, i) ==> is_ws(#[trigger] s[j]),
        skip_ws(s, i) < s.len() ==> !is_ws(s[skip_ws(s, i)]),
    decreases s.len() - i,
{
    if i < s.len() && is_ws(s[i]) {
        lemma_skip_ws(s, i + 1);
    }
}

// ---------------------------------------------------------------------------
// Quoted strings
// ---------------------------------------------------------------------------

/// What the escape `\c` stands for: `\"` is `"`, `\\` is `\`, any other
/// escape is kept as it is written.
pub open spec fn escape_of(c: char) -> Seq<char> {
    if c == '"' || c == '\\' {
        seq![c]
    } else {
        seq!['\\', c]
    }
}

/// The unescaped content of a quoted string whose body starts at `i`, and
/// the position after its closing quote; `None` when the input ends first.
pub open spec fn quoted_from(s: Seq<char>, i: int) -> Option<(Seq<char>, int)>
    decreases s.len() - i,
{
    if i < 0 || i >= s.len() {
        None
    } else if s[i] == '"' {
        Some((Seq::empty(), i + 1))
    } else if s[i] == '\\' {
        if i + 1 < s.len() {
            match quoted_from(s, i + 2) {
                Some((rest, e)) => Some((escape_of(s[i + 1]) + rest, e)),
                None => None,
            }
        } else {
            None
        }
    } else {
        match quoted_from(s, i + 1) {
            Some((rest, e)) => Some((seq![s[i]] + rest, e)),
            None => None,
        }
    }
}

pub proof fn lemma_quoted_from(s: Seq<char>, i: int)
    ensures
        quoted_from(s, i) matches Some((c, e)) ==> 0 <= i < e <= s.len(),
    decreases s.len() - i,
{
    if 0 <= i < s.len() && s[i] != '"' {
        if s[i] == '\\' {
            if i + 1 < s.len() {
                lemma_quoted_from(s, i + 2);
            }
        } else {
            lemma_quoted_from(s, i + 1);
        }
    }
}

/// A quoted string at `i`: its unescaped content and the position after it.
pub open spec fn quoted(s: Seq<char>, i: int) -> Result<(Seq<char>, int), SyntaxError> {
    if !char_at(s, i, '"') {
        Err(fail(i, ErrorKind::ExpectedChar('"')))
    } else {
        match quoted_from(s, i + 1) {
            Some((c, e)) => Ok((c, e)),
            None => Err(fail(s.len() as int, ErrorKind::ExpectedChar('"'))),
        }
    }
}

pub proof fn lemma_quoted(s: Seq<char>, i: int)
    ensures
        quoted(s, i) matches Ok((c, e)) ==> 0 <= i && i + 2 <= e <= s.len(),
{
    lemma_quoted_from(s, i + 1);
}

// ---------------------------------------------------------------------------
// Effects
// ---------------------------------------------------------------------------

/// The action of severity `severity` (0 `Accept`, 1 `Alert`, 2 `Drop`).
pub open spec fn make_action(severity: int, message: Option<Seq<char>>) -> ActionView {
    if severity == 0 {
        ActionView::Accept(message)
    } else if severity == 1 {
        ActionView::Alert(message)
    } else {
        ActionView::Drop(message)
    }
}

/// The action keyword `kw` of severity `severity` at `i`, with its optional message.
pub open spec fn action_with(s: Seq<char>, i: int, kw: Seq<char>, severity: int) -> Result<
    (ActionView, int),
    SyntaxError,
> {
    if !has_keyword(s, i, kw) {
        Err(fail(i, ErrorKind::ExpectedEffect))
    } else {
        let j = i + kw.len();
        if char_at(s, j, '(') {
            match quoted(s, j + 1) {
                Err(x) => Err(x),
                Ok((m, e)) => if char_at(s, e, ')') {
                    Ok((make_action(severity, Some(m)), e + 1))
                } else {
                    Err(fail(e, ErrorKind::ExpectedChar(')')))
                },
            }
        } else {
            Ok((make_action(severity, None), j))
        }
    }
}

/// An action at `i`: `DROP`, `ALERT` or `ACCEPT`.
pub open spec fn action_at(s: Seq<char>, i: int) -> Result<(ActionView, int), SyntaxError> {
    if has_keyword(s, i, kw_drop()) {
        action_with(s, i, kw_drop(), 2)
    } else if has_keyword(s, i, kw_alert()) {
        action_with(s, i, kw_alert(), 1)
    } else {
        action_with(s, i, kw_accept(), 0)
    }
}

/// The quoted strings of a list that starts at `k`, after its opening
/// parenthesis and whitespace, up to and including the closing parenthesis.
pub open spec fn string_items(s: Seq<char>, k: int) -> Result<(Seq<Seq<char>>, int), SyntaxError>
    decreases s.len() - k,
    via string_items_decreases
{
    match quoted(s, k) {
        Err(x) => Err(x),
        Ok((q, e)) => {
            let m = skip_ws(s, e);
            if char_at(s, m, ',') {
                match string_items(s, skip_ws(s, m + 1)) {
                    Ok((rest, f)) => Ok((seq![q] + rest, f)),
                    Err(x) => Err(x),
                }
            } else if char_at(s, m, ')') {
                Ok((seq![q], m + 1))
            } else {
                Err(fail(m, ErrorKind::ExpectedChar(')')))
            }
        },
    }
}

#[via_fn]
proof fn string_items_decreases(s: Seq<char>, k: int) {
    lemma_quoted(s, k);
    if let Ok((q, e)) = quoted(s, k) {
        lemma_skip_ws(s, e);
        let m = skip_ws(s, e);
        if char_at(s, m, ',') {
            lemma_skip_ws(s, m + 1);
        }
    }
}

/// A parenthesised list of quoted strings at `j`.
pub open spec fn string_list(s: Seq<char>, j: int) -> Result<(Seq<Seq<char>>, int), SyntaxError> {
    if !char_at(s, j, '(') {
        Err(fail(j, ErrorKind::ExpectedChar('(')))
    } else {
        let k = skip_ws(s, j + 1);
        if char_at(s, k, ')') {
            Ok((Seq::empty(), k + 1))
        } else {
            string_items(s, k)
        }
    }
}

/// One effect at `i`.
pub open spec fn effect_at(s: Seq<char>, i: int) -> Result<(EffectView, int), SyntaxError> {
    if has_keyword(s, i, kw_tags()) {
        match string_list(s, i + 4) {
            Ok((t, e)) => Ok((EffectView::Tag(t), e)),
            Err(x) => Err(x),
        }
    } else if has_keyword(s, i, kw_flows()) {
        match string_list(s, i + 5) {
            Ok((f, e)) => Ok((EffectView::FlowSet(f), e)),
            Err(x) => Err(x),
        }
    } else {
        match action_at(s, i) {
            Ok((a, e)) => Ok((EffectView::Action(a), e)),
            Err(x) => Err(x),
        }
    }
}

pub proof fn lemma_string_items(s: Seq<char>, k: int)
    ensures
        string_items(s, k) matches Ok((t, e)) ==> 0 <= k < e <= s.len(),
    decreases s.len() - k,
{
    lemma_quoted(s, k);
    if let Ok((q, e)) = quoted(s, k) {
        lemma_skip_ws(s, e);
        let m = skip_ws(s, e);
        if char_at(s, m, ',') {
            lemma_skip_ws(s, m + 1);
            lemma_string_items(s, skip_ws(s, m + 1));
        }
    }
}

pub proof fn lemma_effect_at(s: Seq<char>, i: int)
    ensures
        effect_at(s, i) matches Ok((ef, e)) ==> 0 <= i < e <= s.len(),
{
    if has_keyword(s, i, kw_tags()) || has_keyword(s, i, kw_flows()) {
        let j = if has_keyword(s, i, kw_tags()) { i + 4 } else { i + 5 };
        if char_at(s, j, '(') {
            lemma_skip_ws(s, j + 1);
            lemma_string_items(s, skip_ws(s, j + 1));
        }
    } else {
        let kw = if has_keyword(s, i, kw_drop()) {
            kw_drop()
        } else if has_keyword(s, i, kw_alert()) {
            kw_alert()
        } else {
            kw_accept()
        };
        lemma_quoted(s, i + kw.len() + 1);
    }
}

/// Effects separated by whitespace, starting at `i`. The list goes on while
/// whitespace is followed by anything but `:`.
pub open spec fn effects_from(s: Seq<char>, i: int) -> Result<(Seq<EffectView>, int), SyntaxError>
    decreases s.len() - i,
    via effects_from_decreases
{
    match effect_at(s, i) {
        Err(x) => Err(x),
        Ok((ef, e)) => {
            let q = skip_ws(s, e);
            if q > e && q < s.len() && s[q] != ':' {
                match effects_from(s, q) {
                    Ok((rest, f)) => Ok((seq![ef] + rest, f)),
                    Err(x) => Err(x),
                }
            } else {
                Ok((seq![ef], e))
            }
        },
    }
}

#[via_fn]
proof fn effects_from_decreases(s: Seq<char>, i: int) {
    lemma_effect_at(s, i);
    if let Ok((ef, e)) = effect_at(s, i) {
        lemma_skip_ws(s, e);
    }
}

/// The effects of a rule: combined from the last one written to the first.
pub open spec fn fold_effects(effs: Seq<EffectView>) -> EffectsView
    decreases effs.len(),
{
    if effs.len() == 0 {
        empty_effects()
    } else {
        combine(fold_effects(effs.drop_first()), effect_to_effects(effs[0]))
    }
}

// ---------------------------------------------------------------------------
// Direction and ports
// ---------------------------------------------------------------------------

pub open spec fn is_digit(c: char) -> bool {
    '0' <= c && c <= '9'
}

/// The first position at or after `i` that holds no decimal digit.
pub open spec fn digits_end(s: Seq<char>, i: int) -> int
    decreases s.len() - i,
{
    if 0 <= i < s.len() && is_digit(s[i]) {
        digits_end(s, i + 1)
    } else {
        i
    }
}

pub proof fn lemma_digits_end(s: Seq<char>, i: int)
    requires
        0 <= i <= s.len(),
    ensures
        i <= digits_end(s, i) <= s.len(),
        forall|j: int| i <= j < digits_end(s, i) ==> is_digit(#[trigger] s[j]),
        digits_end(s, i) < s.len() ==> !is_digit(s[digits_end(s, i)]),
    decreases s.len() - i,
{
    if i < s.len() && is_digit(s[i]) {
        lemma_digits_end(s, i + 1);
    }
}

/// The value of a run of decimal digits.
pub open spec fn digits_value(d: Seq<char>) -> int
    decreases d.len(),
{
    if d.len() == 0 {
        0
    } else {
        digits_value(d.drop_last()) * 10 + (d.last() as int - '0' as int)
    }
}

/// One port of a port list at `k`: a number, or nothing for every port.
pub open spec fn port_slot(s: Seq<char>, k: int) -> Result<(RulePort, int), SyntaxError> {
    let a = skip_ws(s, k);
    let b = digits_end(s, a);
    if b == a {
        Ok((RulePort::All, skip_ws(s, b)))
    } else if digits_value(s.subrange(a, b)) > 65535 {
        Err(fail(a, ErrorKind::PortOutOfRange))
    } else {
        Ok((RulePort::Specific(digits_value(s.subrange(a, b)) as u16), skip_ws(s, b)))
    }
}

/// The ports of a direction, at `k` after the opening parenthesis, up to and
/// including the closing one. One number is our port; a second one is theirs.
pub open spec fn port_tuple(s: Seq<char>, k: int) -> Result<(RulePorts, int), SyntaxError> {
    match port_slot(s, k) {
        Err(x) => Err(x),
        Ok((ours, e1)) => if char_at(s, e1, ',') {
            match port_slot(s, e1 + 1) {
                Err(x) => Err(x),
                Ok((theirs, e2)) => if char_at(s, e2, ')') {
                    Ok((RulePorts { ours, theirs }, e2 + 1))
                } else {
                    Err(fail(e2, ErrorKind::ExpectedChar(')')))
                },
            }
        } else if char_at(s, e1, ')') {
            Ok((RulePorts { ours, theirs: RulePort::All }, e1 + 1))
        } else {
            Err(fail(e1, ErrorKind::ExpectedChar(')')))
        },
    }
}

pub open spec fn all_ports() -> RulePorts {
    RulePorts { ours: RulePort::All, theirs: RulePort::All }
}

pub open spec fn make_direction(inbound: bool, ports: RulePorts) -> Direction {
    if inbound {
        Direction::InBound(ports)
    } else {
        Direction::OutBound(ports)
    }
}

/// A direction at `i`, with surrounding whitespace and optional ports.
pub open spec fn direction_at(s: Seq<char>, i: int) -> Result<(Direction, int), SyntaxError> {
    let d = skip_ws(s, i);
    if !has_keyword(s, d, kw_in()) && !has_keyword(s, d, kw_out()) {
        Err(fail(d, ErrorKind::ExpectedDirection))
    } else {
        let inbound = has_keyword(s, d, kw_in());
        let j = if inbound { d + 2 } else { d + 3 };
        let k = skip_ws(s, j);
        if char_at(s, k, '(') {
            match port_tuple(s, k + 1) {
                Err(x) => Err(x),
                Ok((ports, e)) => Ok((make_direction(inbound, ports), skip_ws(s, e))),
            }
        } else {
            Ok((make_direction(inbound, all_ports()), k))
        }
    }
}

// ---------------------------------------------------------------------------
// Matchers
// ---------------------------------------------------------------------------

/// One matcher at `i`: a quoted pattern, which must compile, or `SET("name")`.
pub open spec fn matcher_at(s: Seq<char>, i: int) -> Result<(MatcherView, int), SyntaxError> {
    if char_at(s, i, '"') {
        match quoted(s, i) {
            Err(x) => Err(x),
            Ok((p, e)) => if regex_compiles(p) {
                Ok((MatcherView::Regex(p), e))
            } else {
                Err(fail(i, ErrorKind::InvalidPattern))
            },
        }
    } else if has_keyword(s, i, kw_set()) {
        let j = i + 3;
        if !char_at(s, j, '(') {
            Err(fail(j, ErrorKind::ExpectedChar('(')))
        } else {
            match quoted(s, j + 1) {
                Err(x) => Err(x),
                Ok((n, e)) => if char_at(s, e, ')') {
                    Ok((MatcherView::FlowIsSet(n), e + 1))
                } else {
                    Err(fail(e, ErrorKind::ExpectedChar(')')))
                },
            }
        }
    } else {
        Err(fail(i, ErrorKind::ExpectedMatcher))
    }
}

pub proof fn lemma_matcher_at(s: Seq<char>, i: int)
    ensures
        matcher_at(s, i) matches Ok((m, e)) ==> 0 <= i < e <= s.len(),
{
    lemma_quoted(s, i);
    lemma_quoted(s, i + 4);
}

/// Whether a list of matchers goes on at `q`, after whitespace that ends at `q`.
pub open spec fn matchers_continue(s: Seq<char>, e: int, q: int) -> bool {
    q > e && q < s.len() && s[q] != ';' && s[q] != ')'
}

/// Matchers separated by whitespace, starting at `i`. The list goes on while
/// whitespace is followed by anything but `;` or `)`.
pub open spec fn matchers_from(s: Seq<char>, i: int) -> Result<(Seq<MatcherView>, int), SyntaxError>
    decreases s.len() - i,
    via matchers_from_decreases
{
    match matcher_at(s, i) {
        Err(x) => Err(x),
        Ok((m, e)) => {
            let q = skip_ws(s, e);
            if matchers_continue(s, e, q) {
                match matchers_from(s, q) {
                    Ok((rest, f)) => Ok((seq![m] + rest, f)),
                    Err(x) => Err(x),
                }
            } else {
                Ok((seq![m], e))
            }
        },
    }
}

#[via_fn]
proof fn matchers_from_decreases(s: Seq<char>, i: int) {
    lemma_matcher_at(s, i);
    if let Ok((m, e)) = matcher_at(s, i) {
        lemma_skip_ws(s, e);
    }
}

/// A parenthesised list of matchers at `i`.
pub open spec fn paren_matchers(s: Seq<char>, i: int) -> Result<(Seq<MatcherView>, int), SyntaxError> {
    if !char_at(s, i, '(') {
        Err(fail(i, ErrorKind::ExpectedChar('(')))
    } else {
        match matchers_from(s, skip_ws(s, i + 1)) {
            Err(x) => Err(x),
            Ok((ms, e)) => {
                let t = skip_ws(s, e);
                if char_at(s, t, ')') {
                    Ok((ms, t + 1))
                } else {
                    Err(fail(t, ErrorKind::ExpectedChar(')')))
                }
            },
        }
    }
}

pub proof fn lemma_matchers_from(s: Seq<char>, i: int)
    ensures
        matchers_from(s, i) matches Ok((ms, e)) ==> 0 <= i < e <= s.len(),
    decreases s.len() - i,
{
    lemma_matcher_at(s, i);
    if let Ok((m, e)) = matcher_at(s, i) {
        lemma_skip_ws(s, e);
        let q = skip_ws(s, e);
        if matchers_continue(s, e, q) {
            lemma_matchers_from(s, q);
        }
    }
}

pub proof fn lemma_effects_from(s: Seq<char>, i: int)
    ensures
        effects_from(s, i) matches Ok((effs, e)) ==> 0 <= i < e <= s.len(),
    decreases s.len() - i,
{
    lemma_effect_at(s, i);
    if let Ok((ef, e)) = effect_at(s, i) {
        lemma_skip_ws(s, e);
        let q = skip_ws(s, e);
        if q > e && q < s.len() && s[q] != ':' {
            lemma_effects_from(s, q);
        }
    }
}

pub proof fn lemma_direction_at(s: Seq<char>, i: int)
    requires
        0 <= i <= s.len(),
    ensures
        direction_at(s, i) matches Ok((d, e)) ==> i <= e <= s.len(),
{
    lemma_skip_ws(s, i);
    let d = skip_ws(s, i);
    let j = if has_keyword(s, d, kw_in()) { d + 2 } else { d + 3 };
    if has_keyword(s, d, kw_in()) || has_keyword(s, d, kw_out()) {
        lemma_skip_ws(s, j);
        let k = skip_ws(s, j);
        if char_at(s, k, '(') {
            lemma_skip_ws(s, k + 1);
            lemma_digits_end(s, skip_ws(s, k + 1));
            lemma_skip_ws(s, digits_end(s, skip_ws(s, k + 1)));
            let e1 = skip_ws(s, digits_end(s, skip_ws(s, k + 1)));
            if char_at(s, e1, ',') {
                lemma_skip_ws(s, e1 + 1);
                lemma_digits_end(s, skip_ws(s, e1 + 1));
                lemma_skip_ws(s, digits_end(s, skip_ws(s, e1 + 1)));
                let e2 = skip_ws(s, digits_end(s, skip_ws(s, e1 + 1)));
                if char_at(s, e2, ')') {
                    lemma_skip_ws(s, e2 + 1);
                }
            } else if char_at(s, e1, ')') {
                lemma_skip_ws(s, e1 + 1);
            }
        }
    }
}

// ---------------------------------------------------------------------------
// Rules and rule sets
// ---------------------------------------------------------------------------

/// One rule: the whole of `s`, which ends with its semicolon.
pub open spec fn rule_text(s: Seq<char>) -> Result<RuleView, SyntaxError> {
    match effects_from(s, 0) {
        Err(x) => Err(x),
        Ok((effs, e1)) => {
            let c = skip_ws(s, e1);
            if !char_at(s, c, ':') {
                Err(fail(c, ErrorKind::ExpectedChar(':')))
            } else {
                match direction_at(s, c + 1) {
                    Err(x) => Err(x),
                    Ok((d, e2)) => if !char_at(s, e2, ':') {
                        Err(fail(e2, ErrorKind::ExpectedChar(':')))
                    } else {
                        match matchers_from(s, skip_ws(s, e2 + 1)) {
                            Err(x) => Err(x),
                            Ok((ms, e3)) => {
                                let t = skip_ws(s, e3);
                                if t >= s.len() {
                                    Err(fail(t, ErrorKind::ExpectedChar(';')))
                                } else if s[t] == ';' && t + 1 == s.len() {
                                    Ok(RuleView { effects: fold_effects(effs), direction: d, matchers: ms })
                                } else {
                                    Err(fail(t, ErrorKind::SuperfluousData))
                                }
                            },
                        }
                    },
                }
            }
        },
    }
}

/// The position after the last character of `s[..j]` that is not whitespace.
pub open spec fn trim_end(s: Seq<char>, j: int) -> int
    decreases j,
{
    if 0 < j <= s.len() && is_ws(s[j - 1]) {
        trim_end(s, j - 1)
    } else {
        j
    }
}

/// `s` without leading and trailing whitespace.
pub open spec fn trimmed(s: Seq<char>) -> Seq<char> {
    let a = skip_ws(s, 0);
    let b = trim_end(s, s.len() as int);
    if a < b {
        s.subrange(a, b)
    } else {
        Seq::empty()
    }
}

/// The pieces of `t` from `start` on, each ending with its `;`; the last
/// one may have none. `i` is where the search for the next `;` goes on.
pub open spec fn segments_from(t: Seq<char>, start: int, i: int) -> Seq<Seq<char>>
    decreases t.len() - i,
{
    if i < 0 || i >= t.len() {
        if 0 <= start < t.len() {
            seq![t.subrange(start, t.len() as int)]
        } else {
            Seq::empty()
        }
    } else if t[i] == ';' {
        seq![t.subrange(start, i + 1)] + segments_from(t, i + 1, i + 1)
    } else {
        segments_from(t, start, i + 1)
    }
}

/// The candidate rules of a rule text: split after each `;`.
pub open spec fn segments(t: Seq<char>) -> Seq<Seq<char>> {
    segments_from(t, 0, 0)
}

/// A failed rule: its text and what went wrong.
pub struct FailedRuleView {
    pub rule: Seq<char>,
    pub error: SyntaxError,
}

/// The rules of the candidates that parse, in order.
pub open spec fn collect_rules(segs: Seq<Seq<char>>) -> Seq<RuleView>
    decreases segs.len(),
{
    if segs.len() == 0 {
        Seq::empty()
    } else {
        let prev = collect_rules(segs.drop_last());
        match rule_text(trimmed(segs.last())) {
            Ok(r) => prev.push(r),
            Err(_) => prev,
        }
    }
}

/// The failures of the candidates that do not parse, in order.
pub open spec fn collect_errors(segs: Seq<Seq<char>>) -> Seq<FailedRuleView>
    decreases segs.len(),
{
    if segs.len() == 0 {
        Seq::empty()
    } else {
        let prev = collect_errors(segs.drop_last());
        match rule_text(trimmed(segs.last())) {
            Ok(_) => prev,
            Err(x) => prev.push(FailedRuleView { rule: trimmed(segs.last()), error: x }),
        }
    }
}

/// A rule text: every rule, when each one parses; otherwise every failure.
pub open spec fn parse_model(text: Seq<char>) -> Result<Seq<RuleView>, Seq<FailedRuleView>> {
    let segs = segments(trimmed(text));
    if collect_errors(segs).len() == 0 {
        Ok(collect_rules(segs))
    } else {
        Err(collect_errors(segs))
    }
}


// ---------------------------------------------------------------------------
// Comment lines
// ---------------------------------------------------------------------------

/// A line without the carriage return that ended it.
pub open spec fn strip_cr(l: Seq<char>) -> Seq<char> {
    if l.len() > 0 && l.last() == '\r' {
        l.drop_last()
    } else {
        l
    }
}

/// The lines of `t` from `start` on, as `str::lines` yields them: split at
/// each line feed, a carriage return before it dropped, and no empty line
/// after a final line feed. `i` is where the search for the next line feed
/// goes on.
pub open spec fn lines_from(t: Seq<char>, start: int, i: int) -> Seq<Seq<char>>
    decreases t.len() - i,
{
    if i < 0 || i >= t.len() {
        if 0 <= start < t.len() {
            seq![t.subrange(start, t.len() as int)]
        } else {
            Seq::empty()
        }
    } else if t[i] == '\n' {
        seq![strip_cr(t.subrange(start, i))] + lines_from(t, i + 1, i + 1)
    } else {
        lines_from(t, start, i + 1)
    }
}

/// A blank line, or a comment line: one that starts with `#` once
/// whitespace is trimmed.
pub open spec fn is_skipped_line(l: Seq<char>) -> bool {
    l.len() == 0 || (trimmed(l).len() > 0 && trimmed(l)[0] == '#')
}

/// The kept lines, each one after a space.
pub open spec fn join_kept(ls: Seq<Seq<char>>) -> Seq<char>
    decreases ls.len(),
{
    if ls.len() == 0 {
        Seq::empty()
    } else if is_skipped_line(ls.last()) {
        join_kept(ls.drop_last())
    } else {
        join_kept(ls.drop_last()) + seq![' '] + ls.last()
    }
}

/// A rule text without its blank and comment lines, the rest joined by spaces.
pub open spec fn without_comments(text: Seq<char>) -> Seq<char> {
    join_kept(lines_from(text, 0, 0))
}

} // verus!
