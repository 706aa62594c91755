use vstd::prelude::*;

use itertools::Itertools;

use super::{Action, ActionView, Effect, EffectView, Effects, EffectsView, action_option_view};

verus! {

// ---------------------------------------------------------------------------
// Ordered, duplicate-free unions of strings
// ---------------------------------------------------------------------------

/// Keeps the first occurrence of each element of `s`, in order.
pub open spec fn unique_seq(s: Seq<Seq<char>>) -> Seq<Seq<char>>
    decreases s.len(),
{
    if s.len() == 0 {
        Seq::empty()
    } else {
        let prev = unique_seq(s.drop_last());
        if prev.contains(s.last()) {
            prev
        } else {
            prev.push(s.last())
        }
    }
}

/// Relies on itertools::Itertools::unique: it yields each element the first
/// time it is seen and skips every later element equal to it.
#[verifier::external_body]
fn unique_strings(v: Vec<String>) -> (r: Vec<String>)
    ensures
        r.deep_view() == unique_seq(v.deep_view()),
{
    v.into_iter().unique().collect()
}

/// `s` followed by those elements of `t` not yet seen, each once.
pub open spec fn extend_unique(s: Seq<Seq<char>>, t: Seq<Seq<char>>) -> Seq<Seq<char>>
    decreases t.len(),
{
    if t.len() == 0 {
        s
    } else {
        let prev = extend_unique(s, t.drop_last());
        if prev.contains(t.last()) {
            prev
        } else {
            prev.push(t.last())
        }
    }
}

/// The ordered union of two string lists.
pub open spec fn union_seq(s: Seq<Seq<char>>, t: Seq<Seq<char>>) -> Seq<Seq<char>> {
    unique_seq(s + t)
}

proof fn lemma_unique_concat(s: Seq<Seq<char>>, t: Seq<Seq<char>>)
    ensures
        unique_seq(s + t) == extend_unique(unique_seq(s), t),
    decreases t.len(),
{
    if t.len() == 0 {
        assert(s + t =~= s);
    } else {
        lemma_unique_concat(s, t.drop_last());
        assert((s + t).drop_last() =~= s + t.drop_last());
        assert((s + t).last() == t.last());
    }
}

proof fn lemma_extend_contains(s: Seq<Seq<char>>, t: Seq<Seq<char>>, x: Seq<char>)
    ensures
        extend_unique(s, t).contains(x) <==> (s.contains(x) || t.contains(x)),
    decreases t.len(),
{
    if t.len() > 0 {
        lemma_extend_contains(s, t.drop_last(), x);
        let p = extend_unique(s, t.drop_last());
        if t.contains(x) && !t.drop_last().contains(x) {
            let i = choose|i: int| 0 <= i < t.len() && t[i] == x;
            if i < t.len() - 1 {
                assert(t.drop_last()[i] == x);
            }
            assert(t.last() == x);
        }
        if t.drop_last().contains(x) {
            let i = choose|i: int| 0 <= i < t.len() - 1 && t.drop_last()[i] == x;
            assert(t[i] == x);
        }
        if p.contains(x) && !p.contains(t.last()) {
            let i = choose|i: int| 0 <= i < p.len() && p[i] == x;
            assert(p.push(t.last())[i] == x);
        }
        if !p.contains(t.last()) {
            assert(p.push(t.last())[p.len() as int] == t.last());
            if p.push(t.last()).contains(x) {
                let i = choose|i: int| 0 <= i < p.len() + 1 && p.push(t.last())[i] == x;
                if i < p.len() {
                    assert(p[i] == x);
                }
            }
        }
    }
}

proof fn lemma_unique_contains(s: Seq<Seq<char>>, x: Seq<char>)
    ensures
        unique_seq(s).contains(x) <==> s.contains(x),
{
    lemma_unique_concat(Seq::empty(), s);
    assert(Seq::<Seq<char>>::empty() + s =~= s);
    lemma_extend_contains(Seq::empty(), s, x);
}

proof fn lemma_extend_no_duplicates(s: Seq<Seq<char>>, t: Seq<Seq<char>>)
    requires
        s.no_duplicates(),
    ensures
        extend_unique(s, t).no_duplicates(),
    decreases t.len(),
{
    if t.len() > 0 {
        lemma_extend_no_duplicates(s, t.drop_last());
        let p = extend_unique(s, t.drop_last());
        if !p.contains(t.last()) {
            let q = p.push(t.last());
            assert forall|i: int, j: int| 0 <= i < q.len() && 0 <= j < q.len() && i != j
                implies q[i] != q[j] by {
                if i < p.len() && j < p.len() {
                    assert(q[i] == p[i] && q[j] == p[j]);
                } else if i < p.len() {
                    assert(q[i] == p[i]);
                } else if j < p.len() {
                    assert(q[j] == p[j]);
                }
            }
        }
    }
}

proof fn lemma_unique_no_duplicates(s: Seq<Seq<char>>)
    ensures
        unique_seq(s).no_duplicates(),
{
    lemma_unique_concat(Seq::empty(), s);
    assert(Seq::<Seq<char>>::empty() + s =~= s);
    lemma_extend_no_duplicates(Seq::empty(), s);
}

proof fn lemma_extend_distinct(s: Seq<Seq<char>>, t: Seq<Seq<char>>)
    requires
        (s + t).no_duplicates(),
    ensures
        extend_unique(s, t) == s + t,
    decreases t.len(),
{
    if t.len() > 0 {
        assert((s + t.drop_last()) =~= (s + t).drop_last());
        assert((s + t).drop_last().no_duplicates());
        lemma_extend_distinct(s, t.drop_last());
        let p = s + t.drop_last();
        if p.contains(t.last()) {
            let i = choose|i: int| 0 <= i < p.len() && p[i] == t.last();
            assert((s + t)[i] == (s + t)[(s + t).len() - 1]);
        }
        assert(p.push(t.last()) =~= s + t);
    }
}

/// A list without duplicates is its own duplicate-free form.
proof fn lemma_unique_of_distinct(s: Seq<Seq<char>>)
    requires
        s.no_duplicates(),
    ensures
        unique_seq(s) == s,
{
    lemma_unique_concat(Seq::empty(), s);
    assert(Seq::<Seq<char>>::empty() + s =~= s);
    lemma_extend_distinct(Seq::empty(), s);
}

proof fn lemma_extend_unique_right(s: Seq<Seq<char>>, t: Seq<Seq<char>>)
    ensures
        extend_unique(s, unique_seq(t)) == extend_unique(s, t),
    decreases t.len(),
{
    if t.len() > 0 {
        lemma_extend_unique_right(s, t.drop_last());
        let u = unique_seq(t.drop_last());
        if u.contains(t.last()) {
            lemma_unique_contains(t.drop_last(), t.last());
            lemma_extend_contains(s, t.drop_last(), t.last());
        } else {
            assert(u.push(t.last()).drop_last() =~= u);
        }
    }
}

/// The ordered union is associative.
proof fn lemma_union_assoc(a: Seq<Seq<char>>, b: Seq<Seq<char>>, c: Seq<Seq<char>>)
    ensures
        union_seq(union_seq(a, b), c) == union_seq(a, union_seq(b, c)),
{
    // left: unique(unique(a + b) + c) == extend(unique(unique(a + b)), c)
    lemma_unique_concat(unique_seq(a + b), c);
    lemma_unique_no_duplicates(a + b);
    lemma_unique_of_distinct(unique_seq(a + b));
    lemma_unique_concat(a, b);
    // extend(unique(a + b), c) == unique((a + b) + c)
    lemma_unique_concat(a + b, c);
    // right: unique(a + unique(b + c)) == extend(unique(a), unique(b + c))
    lemma_unique_concat(a, unique_seq(b + c));
    lemma_extend_unique_right(unique_seq(a), b + c);
    lemma_unique_concat(a, b + c);
    assert((a + b) + c =~= a + (b + c));
}

proof fn lemma_union_contains(a: Seq<Seq<char>>, b: Seq<Seq<char>>, x: Seq<char>)
    ensures
        union_seq(a, b).contains(x) <==> (a.contains(x) || b.contains(x)),
{
    lemma_unique_contains(a + b, x);
    if (a + b).contains(x) {
        let i = choose|i: int| 0 <= i < (a + b).len() && (a + b)[i] == x;
        if i < a.len() {
            assert(a[i] == x);
        } else {
            assert(b[i - a.len()] == x);
        }
    }
    if a.contains(x) {
        let i = choose|i: int| 0 <= i < a.len() && a[i] == x;
        assert((a + b)[i] == x);
    }
    if b.contains(x) {
        let i = choose|i: int| 0 <= i < b.len() && b[i] == x;
        assert((a + b)[i + a.len()] == x);
    }
}

/// The ordered union of two lists holds the same strings, whichever comes first.
proof fn lemma_union_same_elements(a: Seq<Seq<char>>, b: Seq<Seq<char>>)
    ensures
        union_seq(a, b).to_set() == union_seq(b, a).to_set(),
        union_seq(a, b).to_set() == a.to_set() + b.to_set(),
{
    assert forall|x: Seq<char>| #[trigger] union_seq(a, b).to_set().contains(x) <==> (a.to_set() + b.to_set()).contains(x) by {
        lemma_union_contains(a, b, x);
    }
    assert forall|x: Seq<char>| #[trigger] union_seq(b, a).to_set().contains(x) <==> (a.to_set() + b.to_set()).contains(x) by {
        lemma_union_contains(b, a, x);
    }
    assert(union_seq(a, b).to_set() =~= a.to_set() + b.to_set());
    assert(union_seq(b, a).to_set() =~= a.to_set() + b.to_set());
}


proof fn lemma_extend_absorbed(s: Seq<Seq<char>>, t: Seq<Seq<char>>)
    requires
        forall|i: int| 0 <= i < t.len() ==> s.contains(#[trigger] t[i]),
    ensures
        extend_unique(s, t) == s,
    decreases t.len(),
{
    if t.len() > 0 {
        assert forall|i: int| 0 <= i < t.drop_last().len() implies s.contains(
            #[trigger] t.drop_last()[i],
        ) by {
            assert(t.drop_last()[i] == t[i]);
        }
        lemma_extend_absorbed(s, t.drop_last());
        assert(s.contains(t[t.len() - 1]));
    }
}

/// The ordered union of a duplicate-free list with itself is that list.
proof fn lemma_union_idempotent(s: Seq<Seq<char>>)
    requires
        s.no_duplicates(),
    ensures
        union_seq(s, s) == s,
{
    lemma_unique_concat(s, s);
    lemma_unique_of_distinct(s);
    assert forall|i: int| 0 <= i < s.len() implies s.contains(#[trigger] s[i]) by {}
    lemma_extend_absorbed(s, s);
}

/// The empty list is a unit of the ordered union on duplicate-free lists.
proof fn lemma_union_unit(s: Seq<Seq<char>>)
    requires
        s.no_duplicates(),
    ensures
        union_seq(s, Seq::empty()) == s,
        union_seq(Seq::empty(), s) == s,
{
    assert(s + Seq::<Seq<char>>::empty() =~= s);
    assert(Seq::<Seq<char>>::empty() + s =~= s);
    lemma_unique_of_distinct(s);
}

// ---------------------------------------------------------------------------
// Severity of actions
// ---------------------------------------------------------------------------

/// Lexicographic order of two strings, character by character.
pub open spec fn text_le(x: Seq<char>, y: Seq<char>) -> bool
    decreases x.len(),
{
    if x.len() == 0 {
        true
    } else if y.len() == 0 {
        false
    } else if (x[0] as int) != (y[0] as int) {
        (x[0] as int) < (y[0] as int)
    } else {
        text_le(x.drop_first(), y.drop_first())
    }
}

/// No message comes before any message.
pub open spec fn message_le(x: Option<Seq<char>>, y: Option<Seq<char>>) -> bool {
    match (x, y) {
        (None, _) => true,
        (Some(_), None) => false,
        (Some(a), Some(b)) => text_le(a, b),
    }
}

/// `Accept` is 0, `Alert` is 1, `Drop` is 2.
pub open spec fn severity(a: ActionView) -> int {
    match a {
        ActionView::Accept(_) => 0,
        ActionView::Alert(_) => 1,
        ActionView::Drop(_) => 2,
    }
}

pub open spec fn message_of(a: ActionView) -> Option<Seq<char>> {
    match a {
        ActionView::Accept(m) => m,
        ActionView::Alert(m) => m,
        ActionView::Drop(m) => m,
    }
}

/// The total order on actions: by severity, then by message.
pub open spec fn action_le(a: ActionView, b: ActionView) -> bool {
    severity(a) < severity(b) || (severity(a) == severity(b) && message_le(
        message_of(a),
        message_of(b),
    ))
}

/// The order on optional actions: no action comes first.
pub open spec fn action_option_le(a: Option<ActionView>, b: Option<ActionView>) -> bool {
    match (a, b) {
        (None, _) => true,
        (Some(_), None) => false,
        (Some(x), Some(y)) => action_le(x, y),
    }
}

/// The worse of two optional actions; the second one where they are equal.
pub open spec fn worse_action(a: Option<ActionView>, b: Option<ActionView>) -> Option<ActionView> {
    if action_option_le(a, b) {
        b
    } else {
        a
    }
}

proof fn lemma_text_le_total(x: Seq<char>, y: Seq<char>)
    ensures
        text_le(x, y) || text_le(y, x),
        text_le(x, y) && text_le(y, x) ==> x == y,
    decreases x.len(),
{
    if x.len() > 0 && y.len() > 0 {
        lemma_text_le_total(x.drop_first(), y.drop_first());
        if (x[0] as int) == (y[0] as int) && text_le(x, y) && text_le(y, x) {
            assert(x[0] == y[0]);
            assert(x =~= seq![x[0]] + x.drop_first());
            assert(y =~= seq![y[0]] + y.drop_first());
        }
    } else if x.len() == 0 && y.len() == 0 {
        assert(x =~= y);
    }
}

proof fn lemma_text_le_trans(x: Seq<char>, y: Seq<char>, z: Seq<char>)
    requires
        text_le(x, y),
        text_le(y, z),
    ensures
        text_le(x, z),
    decreases x.len(),
{
    if x.len() > 0 && y.len() > 0 && z.len() > 0 {
        if (x[0] as int) == (y[0] as int) && (y[0] as int) == (z[0] as int) {
            lemma_text_le_trans(x.drop_first(), y.drop_first(), z.drop_first());
        }
    }
}

proof fn lemma_action_le_total(a: ActionView, b: ActionView)
    ensures
        action_le(a, b) || action_le(b, a),
        action_le(a, b) && action_le(b, a) ==> a == b,
{
    match (message_of(a), message_of(b)) {
        (Some(x), Some(y)) => lemma_text_le_total(x, y),
        _ => {},
    }
}

proof fn lemma_action_le_trans(a: ActionView, b: ActionView, c: ActionView)
    requires
        action_le(a, b),
        action_le(b, c),
    ensures
        action_le(a, c),
{
    match (message_of(a), message_of(b), message_of(c)) {
        (Some(x), Some(y), Some(z)) => {
            if severity(a) == severity(b) && severity(b) == severity(c) {
                lemma_text_le_trans(x, y, z);
            }
        },
        _ => {},
    }
}

proof fn lemma_worse_commutative(a: Option<ActionView>, b: Option<ActionView>)
    ensures
        worse_action(a, b) == worse_action(b, a),
{
    match (a, b) {
        (Some(x), Some(y)) => lemma_action_le_total(x, y),
        _ => {},
    }
}

proof fn lemma_worse_associative(a: Option<ActionView>, b: Option<ActionView>, c: Option<ActionView>)
    ensures
        worse_action(worse_action(a, b), c) == worse_action(a, worse_action(b, c)),
{
    match (a, b, c) {
        (Some(x), Some(y), Some(z)) => {
            lemma_action_le_total(x, y);
            lemma_action_le_total(y, z);
            lemma_action_le_total(x, z);
            if action_le(x, y) && action_le(y, z) {
                lemma_action_le_trans(x, y, z);
            }
            if action_le(y, x) && action_le(z, y) {
                lemma_action_le_trans(z, y, x);
            }
        },
        (Some(x), Some(y), None) => lemma_action_le_total(x, y),
        (None, Some(y), Some(z)) => lemma_action_le_total(y, z),
        (Some(x), None, Some(z)) => lemma_action_le_total(x, z),
        _ => {},
    }
}


/// The worse of two actions is one of them and no better than either.
pub proof fn lemma_worse_is_upper_bound(a: Option<ActionView>, b: Option<ActionView>)
    ensures
        worse_action(a, b) == a || worse_action(a, b) == b,
        action_option_le(a, worse_action(a, b)),
        action_option_le(b, worse_action(a, b)),
{
    match (a, b) {
        (Some(x), Some(y)) => {
            lemma_action_le_total(x, y);
            lemma_action_le_total(x, x);
            lemma_action_le_total(y, y);
        },
        (Some(x), None) => lemma_action_le_total(x, x),
        (None, Some(y)) => lemma_action_le_total(y, y),
        _ => {},
    }
}

/// Two optional actions each no worse than the other are equal.
pub proof fn lemma_action_option_le_antisymmetric(a: Option<ActionView>, b: Option<ActionView>)
    requires
        action_option_le(a, b),
        action_option_le(b, a),
    ensures
        a == b,
{
    match (a, b) {
        (Some(x), Some(y)) => lemma_action_le_total(x, y),
        _ => {},
    }
}

/// The order on optional actions is transitive.
pub proof fn lemma_action_option_le_trans(a: Option<ActionView>, b: Option<ActionView>, c: Option<ActionView>)
    requires
        action_option_le(a, b),
        action_option_le(b, c),
    ensures
        action_option_le(a, c),
{
    match (a, b, c) {
        (Some(x), Some(y), Some(z)) => lemma_action_le_trans(x, y, z),
        _ => {},
    }
}

// ---------------------------------------------------------------------------
// Combination of effects
// ---------------------------------------------------------------------------

/// The effects with no action and no tags or flows.
pub open spec fn empty_effects() -> EffectsView {
    EffectsView { action: None, tags: Seq::empty(), flow_sets: Seq::empty() }
}

/// Each tag and each flow name is held once.
pub open spec fn effects_wf(e: EffectsView) -> bool {
    e.tags.no_duplicates() && e.flow_sets.no_duplicates()
}

/// The join of two effects: the worse action, and the ordered unions of the
/// tags and of the flow names.
pub open spec fn combine(a: EffectsView, b: EffectsView) -> EffectsView {
    EffectsView {
        action: worse_action(a.action, b.action),
        tags: union_seq(a.tags, b.tags),
        flow_sets: union_seq(a.flow_sets, b.flow_sets),
    }
}

/// The effects that a single effect stands for.
pub open spec fn effect_to_effects(e: EffectView) -> EffectsView {
    match e {
        EffectView::Action(a) => EffectsView { action: Some(a), ..empty_effects() },
        EffectView::Tag(t) => EffectsView { tags: unique_seq(t), ..empty_effects() },
        EffectView::FlowSet(f) => EffectsView { flow_sets: unique_seq(f), ..empty_effects() },
    }
}

/// Two effects are equivalent when they have the same action and hold the
/// same tags and flow names, in whatever order.
pub open spec fn equivalent(a: EffectsView, b: EffectsView) -> bool {
    a.action == b.action && a.tags.to_set() == b.tags.to_set() && a.flow_sets.to_set()
        == b.flow_sets.to_set()
}

/// Compares two strings lexicographically, character by character.
fn text_le_exec(a: &String, b: &String) -> (r: bool)
    ensures
        r == text_le(a@, b@),
{
    let sa = a.as_str();
    let sb = b.as_str();
    let n = sa.unicode_len();
    let m = sb.unicode_len();
    let mut i: usize = 0;
    assert(a@.skip(0) =~= a@);
    assert(b@.skip(0) =~= b@);
    while i < n && i < m
        invariant
            sa@ == a@,
            sb@ == b@,
            i <= n,
            i <= m,
            n == a@.len(),
            m == b@.len(),
            text_le(a@, b@) == text_le(a@.skip(i as int), b@.skip(i as int)),
        decreases n - i,
    {
        let x = sa.get_char(i);
        let y = sb.get_char(i);
        assert(a@.skip(i as int).drop_first() =~= a@.skip(i + 1));
        assert(b@.skip(i as int).drop_first() =~= b@.skip(i + 1));
        assert(a@.skip(i as int)[0] == x);
        assert(b@.skip(i as int)[0] == y);
        if x != y {
            return (x as u32) < (y as u32);
        }
        i = i + 1;
    }
    i == n
}

fn message_le_exec(a: &Option<String>, b: &Option<String>) -> (r: bool)
    ensures
        r == message_le(super::message_view(*a), super::message_view(*b)),
{
    match (a, b) {
        (None, _) => true,
        (Some(_), None) => false,
        (Some(x), Some(y)) => text_le_exec(x, y),
    }
}

impl Action {
    /// The severity of the action: `Accept` 0, `Alert` 1, `Drop` 2.
    pub fn severity(&self) -> (r: u8)
        ensures
            r as int == severity(self@),
    {
        match self {
            Action::Accept(_) => 0,
            Action::Alert(_) => 1,
            Action::Drop(_) => 2,
        }
    }

    /// The message of the action.
    pub fn message(&self) -> (r: &Option<String>)
        ensures
            super::message_view(*r) == message_of(self@),
    {
        match self {
            Action::Accept(m) => m,
            Action::Alert(m) => m,
            Action::Drop(m) => m,
        }
    }

    /// Whether `self` is no worse than `other` in the order of actions.
    pub fn no_worse_than(&self, other: &Action) -> (r: bool)
        ensures
            r == action_le(self@, other@),
    {
        let a = self.severity();
        let b = other.severity();
        a < b || (a == b && message_le_exec(self.message(), other.message()))
    }
}

/// The worse of two optional actions, as `std::cmp::max` picks it.
fn worse(a: Option<Action>, b: Option<Action>) -> (r: Option<Action>)
    ensures
        action_option_view(r) == worse_action(action_option_view(a), action_option_view(b)),
{
    let le = match (&a, &b) {
        (None, _) => true,
        (Some(_), None) => false,
        (Some(x), Some(y)) => x.no_worse_than(y),
    };
    if le {
        b
    } else {
        a
    }
}

fn clone_message(m: &Option<String>) -> (r: Option<String>)
    ensures
        super::message_view(r) == super::message_view(*m),
{
    match m {
        Some(s) => Some(s.clone()),
        None => None,
    }
}

fn clone_strings(v: &Vec<String>) -> (r: Vec<String>)
    ensures
        r.deep_view() == v.deep_view(),
{
    let mut r: Vec<String> = Vec::new();
    let mut i: usize = 0;
    while i < v.len()
        invariant
            i <= v.len(),
            r@.len() == i,
            forall|j: int| 0 <= j < i ==> #[trigger] r@[j]@ == v@[j]@,
        decreases v.len() - i,
    {
        r.push(v[i].clone());
        i = i + 1;
    }
    assert(r.deep_view() =~= v.deep_view());
    r
}

/// Appends `b` to `a` and drops every string seen before.
fn union_strings(a: Vec<String>, b: Vec<String>) -> (r: Vec<String>)
    ensures
        r.deep_view() == union_seq(a.deep_view(), b.deep_view()),
{
    let mut all = a;
    let mut rest = b;
    let ghost a0 = all.deep_view();
    let ghost b0 = rest.deep_view();
    all.append(&mut rest);
    assert(all.deep_view() =~= a0 + b0);
    unique_strings(all)
}

impl Clone for Action {
    fn clone(&self) -> (r: Action)
        ensures
            r@ == self@,
    {
        match self {
            Action::Accept(m) => Action::Accept(clone_message(m)),
            Action::Alert(m) => Action::Alert(clone_message(m)),
            Action::Drop(m) => Action::Drop(clone_message(m)),
        }
    }
}

impl Clone for Effects {
    fn clone(&self) -> (r: Effects)
        ensures
            r@ == self@,
    {
        let action = match &self.action {
            Some(a) => Some(a.clone()),
            None => None,
        };
        Effects { action, tags: clone_strings(&self.tags), flow_sets: clone_strings(&self.flow_sets) }
    }
}

impl Effects {
    /// Creates a new, empty set of effects.
    pub fn empty() -> (r: Effects)
        ensures
            r@ == empty_effects(),
            effects_wf(r@),
    {
        let r = Effects { action: None, tags: Vec::new(), flow_sets: Vec::new() };
        assert(r.tags.deep_view() =~= Seq::<Seq<char>>::empty());
        assert(r.flow_sets.deep_view() =~= Seq::<Seq<char>>::empty());
        r
    }

    /// Sets the action, replacing the one there was.
    pub fn with_action(self, action: Action) -> (r: Effects)
        ensures
            r@ == (EffectsView { action: Some(action@), ..self@ }),
            effects_wf(self@) ==> effects_wf(r@),
    {
        Effects { action: Some(action), ..self }
    }

    /// Adds tags after the existing ones; each tag is kept once.
    pub fn with_tags(self, add_tags: Vec<String>) -> (r: Effects)
        ensures
            r@ == (EffectsView { tags: union_seq(self@.tags, add_tags.deep_view()), ..self@ }),
            effects_wf(self@) ==> effects_wf(r@),
    {
        proof {
            lemma_unique_no_duplicates(self@.tags + add_tags.deep_view());
        }
        let Effects { action, tags, flow_sets } = self;
        Effects { action, tags: union_strings(tags, add_tags), flow_sets }
    }

    /// Adds flow names after the existing ones; each name is kept once.
    pub fn with_flow_sets(self, add_flow_sets: Vec<String>) -> (r: Effects)
        ensures
            r@ == (EffectsView {
                flow_sets: union_seq(self@.flow_sets, add_flow_sets.deep_view()),
                ..self@
            }),
            effects_wf(self@) ==> effects_wf(r@),
    {
        proof {
            lemma_unique_no_duplicates(self@.flow_sets + add_flow_sets.deep_view());
        }
        let Effects { action, tags, flow_sets } = self;
        Effects { action, tags, flow_sets: union_strings(flow_sets, add_flow_sets) }
    }

    /// Joins two effects: the tags and the flow names are united, in the
    /// order first seen, and the worse action is kept.
    pub fn combine(self, rhs: Effects) -> (r: Effects)
        ensures
            r@ == combine(self@, rhs@),
            effects_wf(r@),
    {
        proof {
            lemma_combine_wf(self@, rhs@);
        }
        let Effects { action: a1, tags: t1, flow_sets: f1 } = self;
        let Effects { action: a2, tags: t2, flow_sets: f2 } = rhs;
        Effects {
            action: worse(a1, a2),
            tags: union_strings(t1, t2),
            flow_sets: union_strings(f1, f2),
        }
    }

    /// The effects that a single effect stands for.
    pub fn from_effect(effect: &Effect) -> (r: Effects)
        ensures
            r@ == effect_to_effects(effect@),
            effects_wf(r@),
    {
        let r = match effect {
            Effect::Action(a) => Effects::empty().with_action(a.clone()),
            Effect::Tag(tags) => Effects::empty().with_tags(clone_strings(tags)),
            Effect::FlowSet(f) => Effects::empty().with_flow_sets(clone_strings(f)),
        };
        proof {
            assert(Seq::<Seq<char>>::empty() + effect_strings(effect@) =~= effect_strings(effect@));
        }
        r
    }

    /// Adds one effect to these effects.
    pub fn add_effect(self, effect: &Effect) -> (r: Effects)
        ensures
            r@ == combine(self@, effect_to_effects(effect@)),
    {
        self.combine(Effects::from_effect(effect))
    }
}

pub open spec fn effect_strings(e: EffectView) -> Seq<Seq<char>> {
    match e {
        EffectView::Action(_) => Seq::empty(),
        EffectView::Tag(t) => t,
        EffectView::FlowSet(f) => f,
    }
}


// ---------------------------------------------------------------------------
// Laws of the combination
// ---------------------------------------------------------------------------

/// Combining effects always yields effects that hold each tag and each flow name once.
pub proof fn lemma_combine_wf(a: EffectsView, b: EffectsView)
    ensures
        effects_wf(combine(a, b)),
{
    lemma_unique_no_duplicates(a.tags + b.tags);
    lemma_unique_no_duplicates(a.flow_sets + b.flow_sets);
}

/// Combining is associative: `(a + b) + c == a + (b + c)`, exactly, orders included.
pub proof fn lemma_combine_associative(a: EffectsView, b: EffectsView, c: EffectsView)
    ensures
        combine(combine(a, b), c) == combine(a, combine(b, c)),
{
    lemma_worse_associative(a.action, b.action, c.action);
    lemma_union_assoc(a.tags, b.tags, c.tags);
    lemma_union_assoc(a.flow_sets, b.flow_sets, c.flow_sets);
}

/// Combining is commutative: `a + b` and `b + a` have the same action and
/// hold the same tags and flow names. The order of the lists is the order in
/// which the strings were first seen, so it follows the order of the operands.
pub proof fn lemma_combine_commutative(a: EffectsView, b: EffectsView)
    ensures
        equivalent(combine(a, b), combine(b, a)),
        combine(a, b).action == combine(b, a).action,
        combine(a, b).tags.to_set() == a.tags.to_set() + b.tags.to_set(),
        combine(a, b).flow_sets.to_set() == a.flow_sets.to_set() + b.flow_sets.to_set(),
{
    lemma_worse_commutative(a.action, b.action);
    lemma_union_same_elements(a.tags, b.tags);
    lemma_union_same_elements(a.flow_sets, b.flow_sets);
}

/// The empty effects are the identity of the combination: `a + empty == a`
/// and `empty + a == a` for effects that hold each string once.
pub proof fn lemma_combine_identity(a: EffectsView)
    requires
        effects_wf(a),
    ensures
        combine(a, empty_effects()) == a,
        combine(empty_effects(), a) == a,
{
    lemma_union_unit(a.tags);
    lemma_union_unit(a.flow_sets);
}

/// Combining effects with themselves changes nothing.
pub proof fn lemma_combine_idempotent(a: EffectsView)
    requires
        effects_wf(a),
    ensures
        combine(a, a) == a,
{
    lemma_union_idempotent(a.tags);
    lemma_union_idempotent(a.flow_sets);
    match a.action {
        Some(x) => lemma_action_le_total(x, x),
        None => {},
    }
}

/// The combined tags (and flow names) hold each string of either side
/// exactly once, and nothing else.
pub proof fn lemma_combine_union(a: EffectsView, b: EffectsView, x: Seq<char>)
    ensures
        combine(a, b).tags.contains(x) <==> (a.tags.contains(x) || b.tags.contains(x)),
        combine(a, b).flow_sets.contains(x) <==> (a.flow_sets.contains(x) || b.flow_sets.contains(x)),
        combine(a, b).tags.no_duplicates(),
        combine(a, b).flow_sets.no_duplicates(),
{
    lemma_union_contains(a.tags, b.tags, x);
    lemma_union_contains(a.flow_sets, b.flow_sets, x);
    lemma_combine_wf(a, b);
}

/// A `Drop` on either side makes the combined action a `Drop`.
pub proof fn lemma_drop_dominates(a: EffectsView, b: EffectsView)
    requires
        a.action matches Some(ActionView::Drop(_)) || b.action matches Some(ActionView::Drop(_)),
    ensures
        combine(a, b).action matches Some(ActionView::Drop(_)),
{
}

/// An `Alert` against an `Accept`, or against no action, makes the combined action that `Alert`.
pub proof fn lemma_alert_dominates_accept(a: EffectsView, b: EffectsView)
    requires
        a.action matches Some(ActionView::Alert(_)),
        b.action is None || b.action matches Some(ActionView::Accept(_)),
    ensures
        combine(a, b).action == a.action,
        combine(b, a).action == a.action,
{
}

/// No action is the identity for actions: the other side's action is kept.
pub proof fn lemma_no_action_identity(a: EffectsView, b: EffectsView)
    requires
        b.action is None,
    ensures
        combine(a, b).action == a.action,
        combine(b, a).action == a.action,
{
}

} // verus!
