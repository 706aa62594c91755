use vstd::prelude::*;

use crate::datatypes::{
    Action, ActionView, Direction, Effect, EffectView, Effects, Matcher, MatcherView, Rule,
    RulePort, RulePorts, RuleView, Rules, message_view, rules_view,
};
use crate::pattern::compile_regex;
use crate::grammar::{
    ErrorKind, FailedRuleView, SyntaxError, action_at, action_with, char_at, collect_errors,
    collect_rules, digits_end, digits_value, direction_at, effect_at, effects_from, escape_of,
    fail, fold_effects, has_keyword, is_digit, is_skipped_line, is_ws, kw_accept, kw_alert,
    kw_drop, kw_flows, kw_in, kw_out, kw_set, kw_tags, lemma_digits_end, lemma_direction_at,
    lemma_effect_at, lemma_effects_from, lemma_matcher_at, lemma_matchers_from, lemma_quoted,
    lemma_skip_ws, make_action, matcher_at, matchers_from, paren_matchers, parse_model, port_slot,
    port_tuple, quoted, quoted_from, rule_text, segments, segments_from, skip_ws, string_items,
    string_list, trim_end, trimmed,
};

verus! {

broadcast use vstd::string::group_string_axioms;

/// The characters of `s`, in order.
pub fn chars_of(s: &str) -> (r: Vec<char>)
    ensures
        r@ == s@,
{
    let mut v: Vec<char> = Vec::new();
    for c in it: s.chars()
        invariant
            v@ == it.seq().take(it.index() as int),
            it.seq() == s@,
    {
        v.push(c);
        assert(v@ =~= it.seq().take(it.index() + 1));
    }
    assert(v@ =~= s@);
    v
}

/// Relies on String::push: the character is appended at the end.
#[verifier::external_body]
pub(crate) fn push_text_char(s: &mut String, c: char)
    ensures
        final(s)@ == old(s)@.push(c),
{
    s.push(c)
}

/// The string made of the characters of `v`.
fn string_of(v: &Vec<char>) -> (r: String)
    ensures
        r@ == v@,
{
    let mut out = String::new();
    let mut i: usize = 0;
    while i < v.len()
        invariant
            i <= v.len(),
            out@ == v@.take(i as int),
        decreases v.len() - i,
    {
        push_text_char(&mut out, v[i]);
        assert(out@ =~= v@.take(i + 1));
        i = i + 1;
    }
    assert(v@.take(v.len() as int) =~= v@);
    out
}

fn is_ws_exec(c: char) -> (r: bool)
    ensures
        r == is_ws(c),
{
    c == ' ' || c == '\t' || c == '\r' || c == '\n'
}

fn skip_ws_exec(s: &Vec<char>, i: usize) -> (r: usize)
    requires
        i <= s.len(),
    ensures
        r as int == skip_ws(s@, i as int),
        i <= r <= s.len(),
{
    let mut j = i;
    while j < s.len() && is_ws_exec(s[j])
        invariant
            i <= j <= s.len(),
            skip_ws(s@, i as int) == skip_ws(s@, j as int),
        decreases s.len() - j,
    {
        j = j + 1;
    }
    j
}

fn char_at_exec(s: &Vec<char>, i: usize, c: char) -> (r: bool)
    ensures
        r == char_at(s@, i as int, c),
{
    i < s.len() && s[i] == c
}

fn keyword_at(s: &Vec<char>, i: usize, kw: &[char]) -> (r: bool)
    ensures
        r == has_keyword(s@, i as int, kw@),
{
    if i > s.len() || kw.len() > s.len() - i {
        return false;
    }
    let mut k: usize = 0;
    while k < kw.len()
        invariant
            i + kw@.len() <= s.len(),
            k <= kw@.len(),
            forall|j: int| 0 <= j < k ==> s@[i + j] == kw@[j],
        decreases kw.len() - k,
    {
        if s[i + k] != kw[k] {
            assert(s@.subrange(i as int, i + kw@.len())[k as int] != kw@[k as int]);
            return false;
        }
        k = k + 1;
    }
    assert(s@.subrange(i as int, i + kw@.len()) =~= kw@);
    true
}

fn syntax_error(position: usize, kind: ErrorKind) -> (r: SyntaxError)
    ensures
        r == fail(position as int, kind),
{
    SyntaxError { position, kind }
}

/// A quoted string at `i` of `s`: its unescaped content and the position after it.
fn quoted_at(s: &Vec<char>, i: usize) -> (r: Result<(String, usize), SyntaxError>)
    requires
        i <= s.len(),
    ensures
        match r {
            Ok((c, e)) => quoted(s@, i as int) == Ok::<(Seq<char>, int), SyntaxError>((c@, e as int)),
            Err(x) => quoted(s@, i as int) == Err::<(Seq<char>, int), SyntaxError>(x),
        },
{
    if !char_at_exec(s, i, '"') {
        return Err(syntax_error(i, ErrorKind::ExpectedChar('"')));
    }
    let mut out = String::new();
    let mut j = i + 1;
    while j < s.len()
        invariant
            i + 1 <= j <= s.len(),
            char_at(s@, i as int, '"'),
            quoted_from(s@, i + 1) == match quoted_from(s@, j as int) {
                Some((rest, e)) => Some((out@ + rest, e)),
                None => None,
            },
        decreases s.len() - j,
    {
        let c = s[j];
        if c == '"' {
            assert(out@ + Seq::<char>::empty() =~= out@);
            assert(quoted_from(s@, i + 1) == Some((out@, j + 1)));
            return Ok((out, j + 1));
        } else if c == '\\' {
            if j + 1 < s.len() {
                let d = s[j + 1];
                let ghost before = out@;
                if d == '"' || d == '\\' {
                    push_text_char(&mut out, d);
                } else {
                    push_text_char(&mut out, '\\');
                    push_text_char(&mut out, d);
                }
                assert(out@ =~= before + escape_of(d));
                proof {
                    match quoted_from(s@, j + 2) {
                        Some((rest, e)) => {
                            assert(out@ + rest =~= before + (escape_of(d) + rest));
                        },
                        None => {},
                    }
                }
                j = j + 2;
            } else {
                assert(quoted_from(s@, i + 1) is None);
                return Err(syntax_error(s.len(), ErrorKind::ExpectedChar('"')));
            }
        } else {
            let ghost before = out@;
            push_text_char(&mut out, c);
            proof {
                match quoted_from(s@, j + 1) {
                    Some((rest, e)) => {
                        assert(out@ + rest =~= before + (seq![c] + rest));
                    },
                    None => {},
                }
            }
            j = j + 1;
        }
    }
    assert(quoted_from(s@, j as int) is None);
    assert(quoted_from(s@, i + 1) is None);
    Err(syntax_error(s.len(), ErrorKind::ExpectedChar('"')))
}


fn make_action_exec(severity: u8, message: Option<String>) -> (r: Action)
    ensures
        r@ == make_action(severity as int, message_view(message)),
{
    if severity == 0 {
        Action::Accept(message)
    } else if severity == 1 {
        Action::Alert(message)
    } else {
        Action::Drop(message)
    }
}

/// The action keyword `kw` of severity `severity` at `i`, with its optional message.
fn action_with_exec(s: &Vec<char>, i: usize, kw: &[char], severity: u8) -> (r: Result<(Action, usize), SyntaxError>)
    requires
        i <= s.len(),
    ensures
        match r {
            Ok((a, e)) => action_with(s@, i as int, kw@, severity as int) == Ok::<(ActionView, int), SyntaxError>((a@, e as int)),
            Err(x) => action_with(s@, i as int, kw@, severity as int) == Err::<(ActionView, int), SyntaxError>(x),
        },
{
    if !keyword_at(s, i, kw) {
        return Err(syntax_error(i, ErrorKind::ExpectedEffect));
    }
    let j = i + kw.len();
    if char_at_exec(s, j, '(') {
        match quoted_at(s, j + 1) {
            Err(x) => Err(x),
            Ok((m, e)) => {
                proof { lemma_quoted(s@, j + 1); }
                if char_at_exec(s, e, ')') {
                    Ok((make_action_exec(severity, Some(m)), e + 1))
                } else {
                    Err(syntax_error(e, ErrorKind::ExpectedChar(')')))
                }
            },
        }
    } else {
        Ok((make_action_exec(severity, None), j))
    }
}

/// Parses the `Drop` action and its optional message at the start of `i`;
/// returns the action and the number of characters read.
pub fn parse_drop(i: &str) -> (r: Result<(Action, usize), SyntaxError>)
    ensures
        match r {
            Ok((a, e)) => action_with(i@, 0, kw_drop(), 2) == Ok::<(ActionView, int), SyntaxError>((a@, e as int)),
            Err(x) => action_with(i@, 0, kw_drop(), 2) == Err::<(ActionView, int), SyntaxError>(x),
        },
{
    let s = chars_of(i);
    let kw = ['D', 'R', 'O', 'P'];
    assert(kw@ =~= kw_drop());
    action_with_exec(&s, 0, &kw, 2)
}

/// Parses the `Alert` action and its optional message at the start of `i`;
/// returns the action and the number of characters read.
pub fn parse_alert(i: &str) -> (r: Result<(Action, usize), SyntaxError>)
    ensures
        match r {
            Ok((a, e)) => action_with(i@, 0, kw_alert(), 1) == Ok::<(ActionView, int), SyntaxError>((a@, e as int)),
            Err(x) => action_with(i@, 0, kw_alert(), 1) == Err::<(ActionView, int), SyntaxError>(x),
        },
{
    let s = chars_of(i);
    let kw = ['A', 'L', 'E', 'R', 'T'];
    assert(kw@ =~= kw_alert());
    action_with_exec(&s, 0, &kw, 1)
}

/// Parses the `Accept` action and its optional message at the start of `i`;
/// returns the action and the number of characters read.
pub fn parse_accept(i: &str) -> (r: Result<(Action, usize), SyntaxError>)
    ensures
        match r {
            Ok((a, e)) => action_with(i@, 0, kw_accept(), 0) == Ok::<(ActionView, int), SyntaxError>((a@, e as int)),
            Err(x) => action_with(i@, 0, kw_accept(), 0) == Err::<(ActionView, int), SyntaxError>(x),
        },
{
    let s = chars_of(i);
    let kw = ['A', 'C', 'C', 'E', 'P', 'T'];
    assert(kw@ =~= kw_accept());
    action_with_exec(&s, 0, &kw, 0)
}

fn action_exec(s: &Vec<char>, i: usize) -> (r: Result<(Action, usize), SyntaxError>)
    requires
        i <= s.len(),
    ensures
        match r {
            Ok((a, e)) => action_at(s@, i as int) == Ok::<(ActionView, int), SyntaxError>((a@, e as int)),
            Err(x) => action_at(s@, i as int) == Err::<(ActionView, int), SyntaxError>(x),
        },
{
    let drop = ['D', 'R', 'O', 'P'];
    let alert = ['A', 'L', 'E', 'R', 'T'];
    let accept = ['A', 'C', 'C', 'E', 'P', 'T'];
    assert(drop@ =~= kw_drop());
    assert(alert@ =~= kw_alert());
    assert(accept@ =~= kw_accept());
    if keyword_at(s, i, &drop) {
        action_with_exec(s, i, &drop, 2)
    } else if keyword_at(s, i, &alert) {
        action_with_exec(s, i, &alert, 1)
    } else {
        action_with_exec(s, i, &accept, 0)
    }
}


/// The quoted strings of a list from `k0` on, up to and including the closing parenthesis.
fn string_items_exec(s: &Vec<char>, k0: usize) -> (r: Result<(Vec<String>, usize), SyntaxError>)
    requires
        k0 <= s.len(),
    ensures
        match r {
            Ok((v, e)) => string_items(s@, k0 as int) == Ok::<(Seq<Seq<char>>, int), SyntaxError>((v.deep_view(), e as int)),
            Err(x) => string_items(s@, k0 as int) == Err::<(Seq<Seq<char>>, int), SyntaxError>(x),
        },
{
    let mut acc: Vec<String> = Vec::new();
    let mut k = k0;
    assert(acc.deep_view() + Seq::<Seq<char>>::empty() =~= Seq::<Seq<char>>::empty());
    loop
        invariant
            k0 <= k <= s.len(),
            string_items(s@, k0 as int) == match string_items(s@, k as int) {
                Ok((rest, f)) => Ok((acc.deep_view() + rest, f)),
                Err(x) => Err(x),
            },
        decreases s.len() - k,
    {
        match quoted_at(s, k) {
            Err(x) => {
                return Err(x);
            },
            Ok((q, e)) => {
                proof {
                    lemma_quoted(s@, k as int);
                }
                let m = skip_ws_exec(s, e);
                let ghost before = acc.deep_view();
                if char_at_exec(s, m, ',') {
                    let n = skip_ws_exec(s, m + 1);
                    acc.push(q);
                    assert(acc.deep_view() =~= before.push(q@));
                    proof {
                        match string_items(s@, n as int) {
                            Ok((rest, f)) => {
                                assert(acc.deep_view() + rest =~= before + (seq![q@] + rest));
                            },
                            Err(_) => {},
                        }
                    }
                    k = n;
                } else if char_at_exec(s, m, ')') {
                    acc.push(q);
                    assert(acc.deep_view() =~= before + seq![q@]);
                    return Ok((acc, m + 1));
                } else {
                    return Err(syntax_error(m, ErrorKind::ExpectedChar(')')));
                }
            },
        }
    }
}

/// A parenthesised list of quoted strings at `j`.
fn string_list_exec(s: &Vec<char>, j: usize) -> (r: Result<(Vec<String>, usize), SyntaxError>)
    requires
        j <= s.len(),
    ensures
        match r {
            Ok((v, e)) => string_list(s@, j as int) == Ok::<(Seq<Seq<char>>, int), SyntaxError>((v.deep_view(), e as int)),
            Err(x) => string_list(s@, j as int) == Err::<(Seq<Seq<char>>, int), SyntaxError>(x),
        },
{
    if !char_at_exec(s, j, '(') {
        return Err(syntax_error(j, ErrorKind::ExpectedChar('(')));
    }
    let k = skip_ws_exec(s, j + 1);
    if char_at_exec(s, k, ')') {
        let v: Vec<String> = Vec::new();
        assert(v.deep_view() =~= Seq::<Seq<char>>::empty());
        Ok((v, k + 1))
    } else {
        string_items_exec(s, k)
    }
}

fn effect_exec(s: &Vec<char>, i: usize) -> (r: Result<(Effect, usize), SyntaxError>)
    requires
        i <= s.len(),
    ensures
        match r {
            Ok((ef, e)) => effect_at(s@, i as int) == Ok::<(EffectView, int), SyntaxError>((ef@, e as int)),
            Err(x) => effect_at(s@, i as int) == Err::<(EffectView, int), SyntaxError>(x),
        },
{
    let tags = ['T', 'A', 'G', 'S'];
    let flows = ['F', 'L', 'O', 'W', 'S'];
    assert(tags@ =~= kw_tags());
    assert(flows@ =~= kw_flows());
    if keyword_at(s, i, &tags) {
        match string_list_exec(s, i + 4) {
            Ok((t, e)) => Ok((Effect::Tag(t), e)),
            Err(x) => Err(x),
        }
    } else if keyword_at(s, i, &flows) {
        match string_list_exec(s, i + 5) {
            Ok((f, e)) => Ok((Effect::FlowSet(f), e)),
            Err(x) => Err(x),
        }
    } else {
        match action_exec(s, i) {
            Ok((a, e)) => Ok((Effect::Action(a), e)),
            Err(x) => Err(x),
        }
    }
}

pub open spec fn effect_views(v: Seq<Effect>) -> Seq<EffectView> {
    v.map_values(|e: Effect| e@)
}

/// Effects separated by whitespace, from `i0` on.
fn effects_exec(s: &Vec<char>, i0: usize) -> (r: Result<(Vec<Effect>, usize), SyntaxError>)
    requires
        i0 <= s.len(),
    ensures
        match r {
            Ok((v, e)) => effects_from(s@, i0 as int) == Ok::<(Seq<EffectView>, int), SyntaxError>((effect_views(v@), e as int)),
            Err(x) => effects_from(s@, i0 as int) == Err::<(Seq<EffectView>, int), SyntaxError>(x),
        },
{
    let mut acc: Vec<Effect> = Vec::new();
    let mut i = i0;
    assert(effect_views(acc@) + Seq::<EffectView>::empty() =~= Seq::<EffectView>::empty());
    loop
        invariant
            i0 <= i <= s.len(),
            effects_from(s@, i0 as int) == match effects_from(s@, i as int) {
                Ok((rest, f)) => Ok((effect_views(acc@) + rest, f)),
                Err(x) => Err(x),
            },
        decreases s.len() - i,
    {
        match effect_exec(s, i) {
            Err(x) => {
                return Err(x);
            },
            Ok((ef, e)) => {
                proof {
                    lemma_effect_at(s@, i as int);
                }
                let q = skip_ws_exec(s, e);
                let ghost before = effect_views(acc@);
                let ghost efv = ef@;
                acc.push(ef);
                assert(effect_views(acc@) =~= before.push(efv));
                if q > e && q < s.len() && s[q] != ':' {
                    proof {
                        match effects_from(s@, q as int) {
                            Ok((rest, f)) => {
                                assert(effect_views(acc@) + rest =~= before + (seq![efv] + rest));
                            },
                            Err(_) => {},
                        }
                    }
                    i = q;
                } else {
                    assert(effect_views(acc@) =~= before + seq![efv]);
                    return Ok((acc, e));
                }
            },
        }
    }
}


fn digits_end_exec(s: &Vec<char>, i: usize) -> (r: usize)
    requires
        i <= s.len(),
    ensures
        r as int == digits_end(s@, i as int),
{
    let mut j = i;
    while j < s.len() && '0' <= s[j] && s[j] <= '9'
        invariant
            i <= j <= s.len(),
            digits_end(s@, i as int) == digits_end(s@, j as int),
        decreases s.len() - j,
    {
        j = j + 1;
    }
    j
}

proof fn lemma_digits_value_grows(d: Seq<char>, k: int)
    requires
        0 <= k <= d.len(),
        forall|j: int| 0 <= j < d.len() ==> is_digit(#[trigger] d[j]),
    ensures
        digits_value(d.subrange(0, k)) <= digits_value(d),
        0 <= digits_value(d),
    decreases d.len(),
{
    if d.len() > 0 {
        if k < d.len() {
            assert(d.drop_last().subrange(0, k) =~= d.subrange(0, k));
            lemma_digits_value_grows(d.drop_last(), k);
        } else {
            assert(d.subrange(0, k) =~= d);
            lemma_digits_value_grows(d.drop_last(), 0);
        }
    } else {
        assert(d.subrange(0, k) =~= d);
    }
}

/// One port of a port list at `k`.
fn port_slot_exec(s: &Vec<char>, k: usize) -> (r: Result<(RulePort, usize), SyntaxError>)
    requires
        k <= s.len(),
    ensures
        match r {
            Ok((p, e)) => port_slot(s@, k as int) == Ok::<(RulePort, int), SyntaxError>((p, e as int)),
            Err(x) => port_slot(s@, k as int) == Err::<(RulePort, int), SyntaxError>(x),
        },
{
    let a = skip_ws_exec(s, k);
    let b = digits_end_exec(s, a);
    proof {
        lemma_digits_end(s@, a as int);
    }
    if b == a {
        return Ok((RulePort::All, skip_ws_exec(s, b)));
    }
    let ghost d = s@.subrange(a as int, b as int);
    let mut value: u32 = 0;
    let mut j = a;
    assert(s@.subrange(a as int, a as int) =~= Seq::<char>::empty());
    while j < b
        invariant
            a <= j <= b <= s.len(),
            d == s@.subrange(a as int, b as int),
            forall|x: int| a <= x < b ==> is_digit(#[trigger] s@[x]),
            value <= 65535 ==> value as int == digits_value(s@.subrange(a as int, j as int)),
            value > 65535 ==> digits_value(s@.subrange(a as int, j as int)) > 65535,
            value <= 655359,
        decreases b - j,
    {
        let c = s[j];
        assert(is_digit(s@[j as int]));
        let digit = (c as u32) - ('0' as u32);
        assert(s@.subrange(a as int, j + 1).drop_last() =~= s@.subrange(a as int, j as int));
        proof {
            assert forall|x: int| 0 <= x < s@.subrange(a as int, j + 1).len() implies is_digit(
                #[trigger] s@.subrange(a as int, j + 1)[x],
            ) by {
                assert(s@.subrange(a as int, j + 1)[x] == s@[a + x]);
            }
            lemma_digits_value_grows(s@.subrange(a as int, j + 1), j - a);
            assert(s@.subrange(a as int, j + 1).subrange(0, j - a) =~= s@.subrange(a as int, j as int));
        }
        if value <= 65535 {
            value = value * 10 + digit;
        }
        j = j + 1;
    }
    if value > 65535 {
        Err(syntax_error(a, ErrorKind::PortOutOfRange))
    } else {
        Ok((RulePort::Specific(value as u16), skip_ws_exec(s, b)))
    }
}

/// The ports of a direction, after the opening parenthesis.
fn port_tuple_exec(s: &Vec<char>, k: usize) -> (r: Result<(RulePorts, usize), SyntaxError>)
    requires
        k <= s.len(),
    ensures
        match r {
            Ok((p, e)) => port_tuple(s@, k as int) == Ok::<(RulePorts, int), SyntaxError>((p, e as int)),
            Err(x) => port_tuple(s@, k as int) == Err::<(RulePorts, int), SyntaxError>(x),
        },
{
    match port_slot_exec(s, k) {
        Err(x) => Err(x),
        Ok((ours, e1)) => {
            proof {
                lemma_skip_ws(s@, k as int);
                lemma_digits_end(s@, skip_ws(s@, k as int));
                lemma_skip_ws(s@, digits_end(s@, skip_ws(s@, k as int)));
            }
            if char_at_exec(s, e1, ',') {
                match port_slot_exec(s, e1 + 1) {
                    Err(x) => Err(x),
                    Ok((theirs, e2)) => {
                        proof {
                            lemma_skip_ws(s@, e1 + 1);
                            lemma_digits_end(s@, skip_ws(s@, e1 + 1));
                            lemma_skip_ws(s@, digits_end(s@, skip_ws(s@, e1 + 1)));
                        }
                        if char_at_exec(s, e2, ')') {
                            Ok((RulePorts { ours, theirs }, e2 + 1))
                        } else {
                            Err(syntax_error(e2, ErrorKind::ExpectedChar(')')))
                        }
                    },
                }
            } else if char_at_exec(s, e1, ')') {
                Ok((RulePorts { ours, theirs: RulePort::All }, e1 + 1))
            } else {
                Err(syntax_error(e1, ErrorKind::ExpectedChar(')')))
            }
        },
    }
}

/// A direction at `i`, with surrounding whitespace and optional ports.
fn direction_exec(s: &Vec<char>, i: usize) -> (r: Result<(Direction, usize), SyntaxError>)
    requires
        i <= s.len(),
    ensures
        match r {
            Ok((d, e)) => direction_at(s@, i as int) == Ok::<(Direction, int), SyntaxError>((d, e as int)),
            Err(x) => direction_at(s@, i as int) == Err::<(Direction, int), SyntaxError>(x),
        },
{
    let kin = ['I', 'N'];
    let kout = ['O', 'U', 'T'];
    assert(kin@ =~= kw_in());
    assert(kout@ =~= kw_out());
    let d = skip_ws_exec(s, i);
    let inbound = keyword_at(s, d, &kin);
    if !inbound && !keyword_at(s, d, &kout) {
        return Err(syntax_error(d, ErrorKind::ExpectedDirection));
    }
    let j = if inbound { d + 2 } else { d + 3 };
    let k = skip_ws_exec(s, j);
    if char_at_exec(s, k, '(') {
        match port_tuple_exec(s, k + 1) {
            Err(x) => Err(x),
            Ok((ports, e)) => {
                proof {
                    lemma_skip_ws(s@, k + 1);
                    lemma_digits_end(s@, skip_ws(s@, k + 1));
                    lemma_skip_ws(s@, digits_end(s@, skip_ws(s@, k + 1)));
                    let e1 = skip_ws(s@, digits_end(s@, skip_ws(s@, k + 1)));
                    if char_at(s@, e1, ',') {
                        lemma_skip_ws(s@, e1 + 1);
                        lemma_digits_end(s@, skip_ws(s@, e1 + 1));
                        lemma_skip_ws(s@, digits_end(s@, skip_ws(s@, e1 + 1)));
                    }
                }
                let dir = if inbound { Direction::InBound(ports) } else { Direction::OutBound(ports) };
                Ok((dir, skip_ws_exec(s, e)))
            },
        }
    } else {
        let all = RulePorts { ours: RulePort::All, theirs: RulePort::All };
        let dir = if inbound { Direction::InBound(all) } else { Direction::OutBound(all) };
        Ok((dir, k))
    }
}

/// One matcher at `i`: a quoted pattern, compiled here, or `SET("name")`.
fn matcher_exec(s: &Vec<char>, i: usize) -> (r: Result<(Matcher, usize), SyntaxError>)
    requires
        i <= s.len(),
    ensures
        match r {
            Ok((m, e)) => matcher_at(s@, i as int) == Ok::<(MatcherView, int), SyntaxError>((m@, e as int)),
            Err(x) => matcher_at(s@, i as int) == Err::<(MatcherView, int), SyntaxError>(x),
        },
{
    let kset = ['S', 'E', 'T'];
    assert(kset@ =~= kw_set());
    if char_at_exec(s, i, '"') {
        match quoted_at(s, i) {
            Err(x) => Err(x),
            Ok((p, e)) => match compile_regex(p) {
                Ok(pattern) => Ok((Matcher::Regex(pattern), e)),
                Err(_) => Err(syntax_error(i, ErrorKind::InvalidPattern)),
            },
        }
    } else if keyword_at(s, i, &kset) {
        let j = i + 3;
        if !char_at_exec(s, j, '(') {
            return Err(syntax_error(j, ErrorKind::ExpectedChar('(')));
        }
        match quoted_at(s, j + 1) {
            Err(x) => Err(x),
            Ok((n, e)) => {
                proof {
                    lemma_quoted(s@, j + 1);
                }
                if char_at_exec(s, e, ')') {
                    Ok((Matcher::FlowIsSet(n), e + 1))
                } else {
                    Err(syntax_error(e, ErrorKind::ExpectedChar(')')))
                }
            },
        }
    } else {
        Err(syntax_error(i, ErrorKind::ExpectedMatcher))
    }
}

pub open spec fn matcher_views(v: Seq<Matcher>) -> Seq<MatcherView> {
    v.map_values(|m: Matcher| m@)
}

/// Matchers separated by whitespace, from `i0` on.
fn matchers_exec(s: &Vec<char>, i0: usize) -> (r: Result<(Vec<Matcher>, usize), SyntaxError>)
    requires
        i0 <= s.len(),
    ensures
        match r {
            Ok((v, e)) => matchers_from(s@, i0 as int) == Ok::<(Seq<MatcherView>, int), SyntaxError>((matcher_views(v@), e as int)),
            Err(x) => matchers_from(s@, i0 as int) == Err::<(Seq<MatcherView>, int), SyntaxError>(x),
        },
{
    let mut acc: Vec<Matcher> = Vec::new();
    let mut i = i0;
    assert(matcher_views(acc@) + Seq::<MatcherView>::empty() =~= Seq::<MatcherView>::empty());
    loop
        invariant
            i0 <= i <= s.len(),
            matchers_from(s@, i0 as int) == match matchers_from(s@, i as int) {
                Ok((rest, f)) => Ok((matcher_views(acc@) + rest, f)),
                Err(x) => Err(x),
            },
        decreases s.len() - i,
    {
        match matcher_exec(s, i) {
            Err(x) => {
                return Err(x);
            },
            Ok((m, e)) => {
                proof {
                    lemma_matcher_at(s@, i as int);
                }
                let q = skip_ws_exec(s, e);
                let ghost before = matcher_views(acc@);
                let ghost mv = m@;
                acc.push(m);
                assert(matcher_views(acc@) =~= before.push(mv));
                if q > e && q < s.len() && s[q] != ';' && s[q] != ')' {
                    proof {
                        match matchers_from(s@, q as int) {
                            Ok((rest, f)) => {
                                assert(matcher_views(acc@) + rest =~= before + (seq![mv] + rest));
                            },
                            Err(_) => {},
                        }
                    }
                    i = q;
                } else {
                    assert(matcher_views(acc@) =~= before + seq![mv]);
                    return Ok((acc, e));
                }
            },
        }
    }
}


fn fold_effects_exec(effs: &Vec<Effect>) -> (r: Effects)
    ensures
        r@ == fold_effects(effect_views(effs@)),
{
    let ghost v = effect_views(effs@);
    let mut acc = Effects::empty();
    let mut k = effs.len();
    assert(v.skip(k as int) =~= Seq::<EffectView>::empty());
    while k > 0
        invariant
            k <= effs.len(),
            v == effect_views(effs@),
            acc@ == fold_effects(v.skip(k as int)),
        decreases k,
    {
        k = k - 1;
        assert(v.skip(k as int).drop_first() =~= v.skip(k + 1));
        assert(v.skip(k as int)[0] == effs@[k as int]@);
        acc = acc.add_effect(&effs[k]);
    }
    assert(v.skip(0) =~= v);
    acc
}

/// One rule: the whole of `s`, which ends with its semicolon.
fn rule_exec(s: &Vec<char>) -> (r: Result<Rule, SyntaxError>)
    ensures
        match r {
            Ok(rule) => rule_text(s@) == Ok::<RuleView, SyntaxError>(rule@),
            Err(x) => rule_text(s@) == Err::<RuleView, SyntaxError>(x),
        },
{
    let (effs, e1) = match effects_exec(s, 0) {
        Err(x) => return Err(x),
        Ok(v) => v,
    };
    proof {
        lemma_effects_from(s@, 0);
    }
    let c = skip_ws_exec(s, e1);
    if !char_at_exec(s, c, ':') {
        return Err(syntax_error(c, ErrorKind::ExpectedChar(':')));
    }
    let (direction, e2) = match direction_exec(s, c + 1) {
        Err(x) => return Err(x),
        Ok(v) => v,
    };
    proof {
        lemma_direction_at(s@, c + 1);
    }
    if !char_at_exec(s, e2, ':') {
        return Err(syntax_error(e2, ErrorKind::ExpectedChar(':')));
    }
    let m0 = skip_ws_exec(s, e2 + 1);
    let (matchers, e3) = match matchers_exec(s, m0) {
        Err(x) => return Err(x),
        Ok(v) => v,
    };
    proof {
        lemma_matchers_from(s@, m0 as int);
    }
    let t = skip_ws_exec(s, e3);
    if t >= s.len() {
        Err(syntax_error(t, ErrorKind::ExpectedChar(';')))
    } else if s[t] == ';' && t + 1 == s.len() {
        let effects = fold_effects_exec(&effs);
        let rule = Rule { effects, direction, matchers };
        assert(rule@.matchers =~= matcher_views(matchers@));
        Ok(rule)
    } else {
        Err(syntax_error(t, ErrorKind::SuperfluousData))
    }
}

/// The characters of `s` from `a` to `b`.
pub(crate) fn copy_range(s: &Vec<char>, a: usize, b: usize) -> (r: Vec<char>)
    requires
        a <= b <= s.len(),
    ensures
        r@ == s@.subrange(a as int, b as int),
{
    let mut v: Vec<char> = Vec::new();
    let mut i = a;
    while i < b
        invariant
            a <= i <= b <= s.len(),
            v@ == s@.subrange(a as int, i as int),
        decreases b - i,
    {
        v.push(s[i]);
        assert(v@ =~= s@.subrange(a as int, i + 1));
        i = i + 1;
    }
    v
}

fn trim_exec(s: &Vec<char>) -> (r: Vec<char>)
    ensures
        r@ == trimmed(s@),
{
    let a = skip_ws_exec(s, 0);
    let mut b = s.len();
    while b > 0 && is_ws_exec(s[b - 1])
        invariant
            b <= s.len(),
            trim_end(s@, s@.len() as int) == trim_end(s@, b as int),
        decreases b,
    {
        b = b - 1;
    }
    if a < b {
        copy_range(s, a, b)
    } else {
        let v: Vec<char> = Vec::new();
        assert(v@ =~= Seq::<char>::empty());
        v
    }
}

/// A rule that did not parse: its text and what went wrong.
#[derive(Debug)]
pub struct RuleFailure {
    pub rule: String,
    pub error: SyntaxError,
}

impl View for RuleFailure {
    type V = FailedRuleView;

    open spec fn view(&self) -> FailedRuleView {
        FailedRuleView { rule: self.rule@, error: self.error }
    }
}

pub open spec fn failures_view(v: Seq<RuleFailure>) -> Seq<FailedRuleView> {
    v.map_values(|f: RuleFailure| f@)
}

/// Parses one candidate rule and files the result with the rules or with the failures.
fn parse_candidate(seg: &Vec<char>, rules: &mut Vec<Rule>, failures: &mut Vec<RuleFailure>)
    ensures
        match rule_text(trimmed(seg@)) {
            Ok(r) => rules_view(final(rules)@) == rules_view(old(rules)@).push(r)
                && final(failures)@ == old(failures)@,
            Err(x) => final(rules)@ == old(rules)@
                && failures_view(final(failures)@) == failures_view(old(failures)@).push(
                FailedRuleView { rule: trimmed(seg@), error: x },
            ),
        },
{
    let candidate = trim_exec(seg);
    match rule_exec(&candidate) {
        Ok(rule) => {
            let ghost before = rules_view(rules@);
            rules.push(rule);
            assert(rules_view(rules@) =~= before.push(rule@));
        },
        Err(error) => {
            let ghost before = failures_view(failures@);
            let failure = RuleFailure { rule: string_of(&candidate), error };
            failures.push(failure);
            assert(failures_view(failures@) =~= before.push(FailedRuleView { rule: trimmed(seg@), error }));
        },
    }
}

/// Parses a rule text: every rule, in order, when each one parses;
/// otherwise the failure of every rule that does not.
#[verifier::rlimit(40)]
pub fn parse_rules(text: &str) -> (r: Result<Rules, Vec<RuleFailure>>)
    ensures
        match r {
            Ok(rules) => parse_model(text@) == Ok::<Seq<RuleView>, Seq<FailedRuleView>>(rules_view(rules@)),
            Err(fs) => parse_model(text@) == Err::<Seq<RuleView>, Seq<FailedRuleView>>(failures_view(fs@)),
        },
{
    let all = chars_of(text);
    let t = trim_exec(&all);
    let mut rules: Vec<Rule> = Vec::new();
    let mut failures: Vec<RuleFailure> = Vec::new();
    let ghost mut done: Seq<Seq<char>> = Seq::empty();
    let mut start: usize = 0;
    let mut i: usize = 0;
    assert(rules_view(rules@) =~= Seq::<RuleView>::empty());
    assert(failures_view(failures@) =~= Seq::<FailedRuleView>::empty());
    assert(done + segments_from(t@, 0, 0) =~= segments(t@));
    while i < t.len()
        invariant
            start <= i <= t.len(),
            segments(t@) == done + segments_from(t@, start as int, i as int),
            rules_view(rules@) == collect_rules(done),
            failures_view(failures@) == collect_errors(done),
        decreases t.len() - i,
    {
        if t[i] == ';' {
            let seg = copy_range(&t, start, i + 1);
            parse_candidate(&seg, &mut rules, &mut failures);
            proof {
                let rest = segments_from(t@, i + 1, i + 1);
                assert(done + (seq![seg@] + rest) =~= done.push(seg@) + rest);
                assert(done.push(seg@).drop_last() =~= done);
                done = done.push(seg@);
            }
            start = i + 1;
        }
        i = i + 1;
    }
    if start < t.len() {
        let seg = copy_range(&t, start, t.len());
        parse_candidate(&seg, &mut rules, &mut failures);
        proof {
            assert(done + seq![seg@] =~= done.push(seg@));
            assert(done.push(seg@).drop_last() =~= done);
            done = done.push(seg@);
        }
    } else {
        assert(done + Seq::<Seq<char>>::empty() =~= done);
    }
    assert(segments(trimmed(text@)) == done);
    if failures.len() == 0 {
        Ok(rules)
    } else {
        Err(failures)
    }
}


/// Parses a single rule, written with its semicolon and nothing after it.
pub fn parse_rule(input: &str) -> (r: Result<Rule, SyntaxError>)
    ensures
        match r {
            Ok(rule) => rule_text(input@) == Ok::<RuleView, SyntaxError>(rule@),
            Err(x) => rule_text(input@) == Err::<RuleView, SyntaxError>(x),
        },
{
    let s = chars_of(input);
    rule_exec(&s)
}

/// Parses a whitespace-separated list of effects at the start of `i`;
/// returns them and the number of characters read.
pub fn parse_effects(i: &str) -> (r: Result<(Vec<Effect>, usize), SyntaxError>)
    ensures
        match r {
            Ok((v, e)) => effects_from(i@, 0) == Ok::<(Seq<EffectView>, int), SyntaxError>((effect_views(v@), e as int)),
            Err(x) => effects_from(i@, 0) == Err::<(Seq<EffectView>, int), SyntaxError>(x),
        },
{
    let s = chars_of(i);
    effects_exec(&s, 0)
}

/// Parses one effect (an action, `TAGS(..)` or `FLOWS(..)`) at the start of `i`;
/// returns it and the number of characters read.
pub fn parse_effect(i: &str) -> (r: Result<(Effect, usize), SyntaxError>)
    ensures
        match r {
            Ok((ef, e)) => effect_at(i@, 0) == Ok::<(EffectView, int), SyntaxError>((ef@, e as int)),
            Err(x) => effect_at(i@, 0) == Err::<(EffectView, int), SyntaxError>(x),
        },
{
    let s = chars_of(i);
    effect_exec(&s, 0)
}

/// Parses an action (`DROP`, `ALERT` or `ACCEPT`, with its optional message)
/// at the start of `i`; returns it and the number of characters read.
pub fn parse_action(i: &str) -> (r: Result<(Effect, usize), SyntaxError>)
    ensures
        match r {
            Ok((ef, e)) => match action_at(i@, 0) {
                Ok((a, k)) => ef@ == EffectView::Action(a) && k == e as int,
                Err(_) => false,
            },
            Err(x) => action_at(i@, 0) == Err::<(ActionView, int), SyntaxError>(x),
        },
{
    let s = chars_of(i);
    match action_exec(&s, 0) {
        Ok((a, e)) => Ok((Effect::Action(a), e)),
        Err(x) => Err(x),
    }
}

/// Parses a quoted string at the start of `input`, undoing the escapes `\"`
/// and `\\`; returns its content and the number of characters read.
pub fn parse_quoted(input: &str) -> (r: Result<(String, usize), SyntaxError>)
    ensures
        match r {
            Ok((c, e)) => quoted(input@, 0) == Ok::<(Seq<char>, int), SyntaxError>((c@, e as int)),
            Err(x) => quoted(input@, 0) == Err::<(Seq<char>, int), SyntaxError>(x),
        },
{
    let s = chars_of(input);
    quoted_at(&s, 0)
}

/// Parses a whitespace-separated list of matchers at the start of `i`;
/// returns them and the number of characters read.
pub fn parse_matchers_list(i: &str) -> (r: Result<(Vec<Matcher>, usize), SyntaxError>)
    ensures
        match r {
            Ok((v, e)) => matchers_from(i@, 0) == Ok::<(Seq<MatcherView>, int), SyntaxError>((matcher_views(v@), e as int)),
            Err(x) => matchers_from(i@, 0) == Err::<(Seq<MatcherView>, int), SyntaxError>(x),
        },
{
    let s = chars_of(i);
    matchers_exec(&s, 0)
}

/// Parses a parenthesised list of matchers at the start of `i`; returns them
/// and the number of characters read.
pub fn parse_matchers(i: &str) -> (r: Result<(Vec<Matcher>, usize), SyntaxError>)
    ensures
        match r {
            Ok((v, e)) => paren_matchers(i@, 0) == Ok::<(Seq<MatcherView>, int), SyntaxError>((matcher_views(v@), e as int)),
            Err(x) => paren_matchers(i@, 0) == Err::<(Seq<MatcherView>, int), SyntaxError>(x),
        },
{
    let s = chars_of(i);
    if !char_at_exec(&s, 0, '(') {
        return Err(syntax_error(0, ErrorKind::ExpectedChar('(')));
    }
    let k = skip_ws_exec(&s, 1);
    match matchers_exec(&s, k) {
        Err(x) => Err(x),
        Ok((ms, e)) => {
            proof {
                lemma_matchers_from(s@, k as int);
            }
            let t = skip_ws_exec(&s, e);
            if char_at_exec(&s, t, ')') {
                Ok((ms, t + 1))
            } else {
                Err(syntax_error(t, ErrorKind::ExpectedChar(')')))
            }
        },
    }
}


// ---------------------------------------------------------------------------
// Error report
// ---------------------------------------------------------------------------

pub open spec fn digit_chars() -> Seq<char> {
    seq!['0', '1', '2', '3', '4', '5', '6', '7', '8', '9']
}

/// The decimal digits of `n`.
pub open spec fn decimal(n: nat) -> Seq<char>
    decreases n,
{
    if n < 10 {
        seq![digit_chars()[n as int]]
    } else {
        decimal(n / 10) + seq![digit_chars()[(n % 10) as int]]
    }
}

/// What a parse failure says it expected.
pub open spec fn kind_text(k: ErrorKind) -> Seq<char> {
    match k {
        ErrorKind::ExpectedChar(c) => "expected '"@ + seq![c] + "'"@,
        ErrorKind::ExpectedEffect => "expected ACCEPT, ALERT, DROP, TAGS or FLOWS"@,
        ErrorKind::ExpectedDirection => "expected IN or OUT"@,
        ErrorKind::ExpectedMatcher => "expected a quoted pattern or SET"@,
        ErrorKind::PortOutOfRange => "port number out of range"@,
        ErrorKind::InvalidPattern => "invalid regular expression"@,
        ErrorKind::SuperfluousData => "found superfluous data"@,
    }
}

/// The report of one failed rule: its text, a caret under the place of the
/// failure, and what was expected there.
pub open spec fn failure_text(f: FailedRuleView) -> Seq<char> {
    "\nError in rule: "@ + f.rule + "\n"@ + f.rule + "\n"@ + Seq::new(
        f.error.position as nat,
        |i: int| ' ',
    ) + "^\n"@ + kind_text(f.error.kind) + " at character "@ + decimal(f.error.position as nat)
}

/// The report of every failed rule, in order.
pub open spec fn report_text(fs: Seq<FailedRuleView>) -> Seq<char>
    decreases fs.len(),
{
    if fs.len() == 0 {
        "Error parsing rules:"@
    } else {
        report_text(fs.drop_last()) + failure_text(fs.last())
    }
}

fn push_decimal(out: &mut String, n: usize)
    ensures
        final(out)@ == old(out)@ + decimal(n as nat),
    decreases n,
{
    let digits = ['0', '1', '2', '3', '4', '5', '6', '7', '8', '9'];
    assert(digits@ =~= digit_chars());
    let ghost start = out@;
    if n >= 10 {
        push_decimal(out, n / 10);
    }
    push_text_char(out, digits[n % 10]);
    assert(out@ =~= start + decimal(n as nat));
}

fn push_kind(out: &mut String, k: ErrorKind)
    ensures
        final(out)@ == old(out)@ + kind_text(k),
{
    let ghost start = out@;
    match k {
        ErrorKind::ExpectedChar(c) => {
            out.append("expected '");
            push_text_char(out, c);
            out.append("'");
            assert(out@ =~= start + kind_text(k));
        },
        ErrorKind::ExpectedEffect => out.append("expected ACCEPT, ALERT, DROP, TAGS or FLOWS"),
        ErrorKind::ExpectedDirection => out.append("expected IN or OUT"),
        ErrorKind::ExpectedMatcher => out.append("expected a quoted pattern or SET"),
        ErrorKind::PortOutOfRange => out.append("port number out of range"),
        ErrorKind::InvalidPattern => out.append("invalid regular expression"),
        ErrorKind::SuperfluousData => out.append("found superfluous data"),
    }
}

fn push_failure(out: &mut String, f: &RuleFailure)
    ensures
        final(out)@ == old(out)@ + failure_text(f@),
{
    let ghost start = out@;
    out.append("\nError in rule: ");
    out.append(f.rule.as_str());
    out.append("\n");
    out.append(f.rule.as_str());
    out.append("\n");
    let ghost before_spaces = out@;
    let mut i: usize = 0;
    while i < f.error.position
        invariant
            i <= f.error.position,
            out@ == before_spaces + Seq::new(i as nat, |j: int| ' '),
        decreases f.error.position - i,
    {
        push_text_char(out, ' ');
        assert(out@ =~= before_spaces + Seq::new((i + 1) as nat, |j: int| ' '));
        i = i + 1;
    }
    out.append("^\n");
    push_kind(out, f.error.kind);
    out.append(" at character ");
    push_decimal(out, f.error.position);
    assert(out@ =~= start + failure_text(f@));
}

/// The report of every failed rule, in order.
pub fn report(failures: &Vec<RuleFailure>) -> (r: String)
    ensures
        r@ == report_text(failures_view(failures@)),
{
    let mut out = String::new();
    out.append("Error parsing rules:");
    assert(out@ =~= "Error parsing rules:"@);
    let mut i: usize = 0;
    assert(failures_view(failures@).take(0) =~= Seq::<FailedRuleView>::empty());
    while i < failures.len()
        invariant
            i <= failures.len(),
            out@ == report_text(failures_view(failures@).take(i as int)),
        decreases failures.len() - i,
    {
        push_failure(&mut out, &failures[i]);
        assert(failures_view(failures@).take(i + 1).drop_last() =~= failures_view(failures@).take(i as int));
        i = i + 1;
    }
    assert(failures_view(failures@).take(failures.len() as int) =~= failures_view(failures@));
    out
}

/// Parses a string holding several rules, each ending with `;`. Either every
/// rule parses, and they come back in order, or the error is a report of
/// every rule that does not.
pub fn parse(rules_string: String) -> (r: Result<Rules, String>)
    ensures
        match r {
            Ok(rules) => parse_model(rules_string@) == Ok::<Seq<RuleView>, Seq<FailedRuleView>>(rules_view(rules@)),
            Err(msg) => match parse_model(rules_string@) {
                Ok(_) => false,
                Err(fs) => msg@ == report_text(fs),
            },
        },
{
    match parse_rules(rules_string.as_str()) {
        Ok(rules) => Ok(rules),
        Err(failures) => Err(report(&failures)),
    }
}


/// Whether a line is blank or a comment line.
pub(crate) fn skipped_line(line: &Vec<char>) -> (r: bool)
    ensures
        r == is_skipped_line(line@),
{
    if line.len() == 0 {
        return true;
    }
    let t = trim_exec(line);
    t.len() > 0 && t[0] == '#'
}

} // verus!
