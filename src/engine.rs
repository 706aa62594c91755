use vstd::prelude::*;

use crate::datatypes::rule::{evaluate, evaluate_rules};
use crate::datatypes::{Effects, ProxyDirection, RuleView, Rules, rules_view};
use crate::grammar::{
    FailedRuleView, collect_errors, join_kept, lines_from, parse_model, rule_text, segments,
    strip_cr, trimmed, without_comments,
};
use crate::parser::{chars_of, parse, report_text};

verus! {

fn push_line(out: &mut String, line: &Vec<char>)
    ensures
        final(out)@ == old(out)@ + seq![' '] + line@,
{
    let ghost start = out@;
    crate::parser::push_text_char(out, ' ');
    let ghost mid = out@;
    let mut i: usize = 0;
    while i < line.len()
        invariant
            i <= line.len(),
            out@ == mid + line@.take(i as int),
        decreases line.len() - i,
    {
        crate::parser::push_text_char(out, line[i]);
        assert(out@ =~= mid + line@.take(i + 1));
        i = i + 1;
    }
    assert(line@.take(line.len() as int) =~= line@);
    assert(out@ =~= start + seq![' '] + line@);
}

/// The rule text without its blank lines and its comment lines (those that
/// start with `#`), the other lines joined, each after a space.
pub fn strip_comments(text: &str) -> (r: String)
    ensures
        r@ == without_comments(text@),
{
    let t = chars_of(text);
    let mut out = String::new();
    let ghost mut done: Seq<Seq<char>> = Seq::empty();
    let mut start: usize = 0;
    let mut i: usize = 0;
    assert(done + lines_from(t@, 0, 0) =~= lines_from(t@, 0, 0));
    assert(out@ =~= join_kept(done));
    while i < t.len()
        invariant
            start <= i <= t.len(),
            lines_from(t@, 0, 0) == done + lines_from(t@, start as int, i as int),
            out@ == join_kept(done),
        decreases t.len() - i,
    {
        if t[i] == '\n' {
            let mut line = crate::parser::copy_range(&t, start, i);
            if line.len() > 0 && line[line.len() - 1] == '\r' {
                line.pop();
                assert(line@ =~= strip_cr(t@.subrange(start as int, i as int)));
            }
            if !crate::parser::skipped_line(&line) {
                push_line(&mut out, &line);
            }
            proof {
                let rest = lines_from(t@, i + 1, i + 1);
                assert(done + (seq![line@] + rest) =~= done.push(line@) + rest);
                assert(done.push(line@).drop_last() =~= done);
                done = done.push(line@);
            }
            start = i + 1;
        }
        i = i + 1;
    }
    if start < t.len() {
        let line = crate::parser::copy_range(&t, start, t.len());
        if !crate::parser::skipped_line(&line) {
            push_line(&mut out, &line);
        }
        proof {
            assert(done + seq![line@] =~= done.push(line@));
            assert(done.push(line@).drop_last() =~= done);
            done = done.push(line@);
        }
    } else {
        assert(done + Seq::<Seq<char>>::empty() =~= done);
    }
    out
}

/// Parses a rule text that may hold blank lines and comment lines.
pub fn parse_rulestring(ruleset: &str) -> (r: Result<Rules, String>)
    ensures
        match r {
            Ok(rules) => parse_model(without_comments(ruleset@)) == Ok::<Seq<RuleView>, Seq<FailedRuleView>>(rules_view(rules@)),
            Err(msg) => match parse_model(without_comments(ruleset@)) {
                Ok(_) => false,
                Err(fs) => msg@ == report_text(fs),
            },
        },
{
    parse(strip_comments(ruleset))
}

/// Checks a rule text, which may hold blank lines and comment lines, without
/// keeping the rules: `Ok` when every rule parses, else the report.
pub fn rules_lint(ruleset: &str) -> (r: Result<(), String>)
    ensures
        match r {
            Ok(_) => parse_model(without_comments(ruleset@)) is Ok,
            Err(msg) => match parse_model(without_comments(ruleset@)) {
                Ok(_) => false,
                Err(fs) => msg@ == report_text(fs),
            },
        },
{
    match parse_rulestring(ruleset) {
        Ok(_) => Ok(()),
        Err(msg) => Err(msg),
    }
}

/// A loaded rule set, read-only once built.
#[derive(Debug)]
pub struct FilterEngine {
    rules: Rules,
}

impl View for FilterEngine {
    type V = Seq<RuleView>;

    closed spec fn view(&self) -> Seq<RuleView> {
        rules_view(self.rules@)
    }
}

/// Builds an engine from a rule text that may hold blank lines and comment lines.
pub fn create_filterengine_from_ruleset(ruleset: String) -> (r: Result<FilterEngine, String>)
    ensures
        match r {
            Ok(engine) => parse_model(without_comments(ruleset@)) == Ok::<Seq<RuleView>, Seq<FailedRuleView>>(engine@),
            Err(msg) => match parse_model(without_comments(ruleset@)) {
                Ok(_) => false,
                Err(fs) => msg@ == report_text(fs),
            },
        },
{
    match parse_rulestring(ruleset.as_str()) {
        Ok(rules) => Ok(FilterEngine { rules }),
        Err(msg) => Err(msg),
    }
}

impl FilterEngine {
    /// The rules of the engine, in the order of the rule text.
    pub fn rules(&self) -> (r: &Rules)
        ensures
            rules_view(r@) == self@,
    {
        &self.rules
    }

    /// Applies every rule to one exchange and combines the effects of those that apply.
    pub fn filter(
        &self,
        inner_port: u16,
        outer_port: u16,
        direction: ProxyDirection,
        data: &[u8],
        flowbits: &Vec<String>,
    ) -> (r: Effects)
        ensures
            r@ == evaluate_rules(self@, data@, inner_port, outer_port, direction, flowbits.deep_view()),
    {
        evaluate(&self.rules, data, inner_port, outer_port, direction, flowbits)
    }
}


// ---------------------------------------------------------------------------
// Laws of parsing
// ---------------------------------------------------------------------------

proof fn lemma_collect_errors(segs: Seq<Seq<char>>, k: int)
    requires
        0 <= k < segs.len(),
        rule_text(trimmed(segs[k])) is Err,
    ensures
        exists|j: int|
            0 <= j < collect_errors(segs).len() && (#[trigger] collect_errors(segs)[j]).rule
                == trimmed(segs[k]),
    decreases segs.len(),
{
    let errs = collect_errors(segs);
    if k == segs.len() - 1 {
        assert(errs.last().rule == trimmed(segs[k]));
    } else {
        lemma_collect_errors(segs.drop_last(), k);
        let prev = collect_errors(segs.drop_last());
        let j = choose|j: int| 0 <= j < prev.len() && (#[trigger] prev[j]).rule == trimmed(segs.drop_last()[k]);
        assert(errs[j] == prev[j]);
    }
}

/// Parsing fails closed: where any one rule of a text does not parse, the
/// text yields no rules at all, and the error reports that rule.
pub proof fn lemma_fail_closed(text: Seq<char>, k: int)
    requires
        0 <= k < segments(trimmed(text)).len(),
        rule_text(trimmed(segments(trimmed(text))[k])) is Err,
    ensures
        parse_model(text) is Err,
        exists|j: int|
            0 <= j < collect_errors(segments(trimmed(text))).len() && (#[trigger] collect_errors(
                segments(trimmed(text)),
            )[j]).rule == trimmed(segments(trimmed(text))[k]),
{
    lemma_collect_errors(segments(trimmed(text)), k);
}

/// Parsing is deterministic: two parses of one text yield the same rules,
/// which evaluate alike on every exchange.
pub proof fn lemma_parse_deterministic(
    text: Seq<char>,
    a: Seq<RuleView>,
    b: Seq<RuleView>,
    data: Seq<u8>,
    home_port: u16,
    out_port: u16,
    direction: ProxyDirection,
    flowbits: Seq<Seq<char>>,
)
    requires
        parse_model(text) == Ok::<Seq<RuleView>, Seq<FailedRuleView>>(a),
        parse_model(text) == Ok::<Seq<RuleView>, Seq<FailedRuleView>>(b),
    ensures
        a == b,
        evaluate_rules(a, data, home_port, out_port, direction, flowbits) == evaluate_rules(
            b,
            data,
            home_port,
            out_port,
            direction,
            flowbits,
        ),
{
}

} // verus!
