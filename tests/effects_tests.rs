use filter_engine::datatypes::{Action, Effect, Effects};

fn strings(v: &[&str]) -> Vec<String> {
    v.iter().map(|s| s.to_string()).collect()
}

fn effects(action: Option<Action>, tags: &[&str], flows: &[&str]) -> Effects {
    Effects { action, tags: strings(tags), flow_sets: strings(flows) }
}

#[test]
fn union_of_tags_keeps_first_seen_order_once() {
    let a = effects(None, &["x"], &[]);
    let b = effects(None, &["x", "y"], &[]);
    assert_eq!(a.combine(b).tags, strings(&["x", "y"]));
}

#[test]
fn with_tags_removes_duplicates() {
    let e = Effects::empty().with_tags(strings(&["a", "b", "a", "c", "b"]));
    assert_eq!(e.tags, strings(&["a", "b", "c"]));
    let f = Effects::empty().with_flow_sets(strings(&["f", "f"]));
    assert_eq!(f.flow_sets, strings(&["f"]));
}

#[test]
fn drop_beats_everything() {
    let d = || effects(Some(Action::Drop(None)), &[], &[]);
    for other in [Some(Action::Accept(None)), Some(Action::Alert(Some("m".to_string()))), None] {
        let o = effects(other.clone(), &[], &[]);
        assert_eq!(d().combine(o).action, Some(Action::Drop(None)));
        let o = effects(other, &[], &[]);
        assert_eq!(o.combine(d()).action, Some(Action::Drop(None)));
    }
}

#[test]
fn alert_beats_accept_and_none_is_identity() {
    let alert = effects(Some(Action::Alert(None)), &[], &[]);
    let accept = effects(Some(Action::Accept(Some("ok".to_string()))), &[], &[]);
    assert_eq!(accept.combine(alert).action, Some(Action::Alert(None)));
    let none = Effects::empty();
    let accept = effects(Some(Action::Accept(Some("ok".to_string()))), &[], &[]);
    assert_eq!(none.combine(accept).action, Some(Action::Accept(Some("ok".to_string()))));
}

#[test]
fn same_kind_ordered_by_message() {
    let a = effects(Some(Action::Drop(Some("a".to_string()))), &[], &[]);
    let b = effects(Some(Action::Drop(Some("b".to_string()))), &[], &[]);
    assert_eq!(a.combine(b).action, Some(Action::Drop(Some("b".to_string()))));
    let a = effects(Some(Action::Drop(Some("a".to_string()))), &[], &[]);
    let n = effects(Some(Action::Drop(None)), &[], &[]);
    assert_eq!(n.combine(a).action, Some(Action::Drop(Some("a".to_string()))));
}

#[test]
fn combination_laws_on_values() {
    let a = || effects(Some(Action::Alert(None)), &["t1", "t2"], &["f1"]);
    let b = || effects(Some(Action::Accept(None)), &["t2", "t3"], &[]);
    let c = || effects(Some(Action::Drop(Some("x".to_string()))), &["t4"], &["f1", "f2"]);
    assert_eq!(a().combine(b()).combine(c()), a().combine(b().combine(c())));
    let ab = a().combine(b());
    let ba = b().combine(a());
    assert_eq!(ab.action, ba.action);
    let mut t1 = ab.tags.clone();
    let mut t2 = ba.tags.clone();
    t1.sort();
    t2.sort();
    assert_eq!(t1, t2);
    assert_eq!(a().combine(Effects::empty()), a());
    assert_eq!(Effects::empty().combine(a()), a());
    assert_eq!(a().combine(a()), a());
}

#[test]
fn single_effect_embedding() {
    let e = Effects::from_effect(&Effect::Action(Action::Alert(None)));
    assert_eq!(e, effects(Some(Action::Alert(None)), &[], &[]));
    let e = Effects::from_effect(&Effect::Tag(strings(&["a", "a"])));
    assert_eq!(e, effects(None, &["a"], &[]));
    let e = Effects::empty().add_effect(&Effect::FlowSet(strings(&["f"])));
    assert_eq!(e, effects(None, &[], &["f"]));
}

#[test]
fn with_action_replaces() {
    let e = Effects::empty().with_action(Action::Drop(None)).with_action(Action::Accept(None));
    assert_eq!(e.action, Some(Action::Accept(None)));
}
