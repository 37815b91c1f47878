use tracing_concat::stack::SpanStack;
use tracing_concat::store::{Parent, Store};

fn fresh() -> (Store<&'static str>, SpanStack) {
    (Store::with_capacity(32), SpanStack::new())
}

#[test]
fn root_and_contextual_child_are_reclaimed() {
    let (mut store, mut stack) = fresh();
    let r = store.new_span(&stack, Parent::Root, "root", "");
    assert_eq!(r, 1);
    store.push(&mut stack, r);
    let c = store.new_span(&stack, Parent::Contextual, "child", "");
    assert_eq!(c, 2);
    assert_eq!(store.get(c).unwrap().parent(), Some(r));
    store.push(&mut stack, c);
    store.pop(&mut stack, c);
    store.pop(&mut stack, r);
    assert_eq!(store.slab_len(), 2);
    assert!(store.drop_span(c));
    assert!(store.drop_span(r));
    assert_eq!(store.slab_len(), 2);
    assert!(store.get(r).is_none());
    assert!(store.get(c).is_none());
    // the most recently freed slot heads the list, the other one follows it
    assert_eq!(store.free_head(), 0);
    assert_eq!(store.new_span(&stack, Parent::Root, "a", ""), 1);
    assert_eq!(store.free_head(), 1);
    assert_eq!(store.new_span(&stack, Parent::Root, "b", ""), 2);
    assert_eq!(store.free_head(), 2);
    assert_eq!(store.slab_len(), 2);
}

#[test]
fn duplicate_entry_keeps_current() {
    let (mut store, mut stack) = fresh();
    let id = store.new_span(&stack, Parent::Root, "s", "");
    assert_eq!(id, 1);
    store.push(&mut stack, id);
    store.push(&mut stack, id);
    assert_eq!(store.current(&stack), Some(1));
}

#[test]
fn get_after_full_drop_is_none() {
    let (mut store, stack) = fresh();
    let id = store.new_span(&stack, Parent::Root, "s", "x=1");
    assert!(store.get(id).is_some());
    assert!(store.drop_span(id));
    assert!(store.get(id).is_none());
    // dropping again changes nothing
    assert!(!store.drop_span(id));
    assert!(store.get(id).is_none());
}

#[test]
fn single_free_slot_goes_to_one_allocation() {
    let (mut store, stack) = fresh();
    let a = store.new_span(&stack, Parent::Root, "a", "");
    let b = store.new_span(&stack, Parent::Root, "b", "");
    assert_eq!((a, b), (1, 2));
    assert!(store.drop_span(a));
    assert_eq!(store.free_head(), 0);
    let first = store.new_span(&stack, Parent::Root, "c", "");
    let second = store.new_span(&stack, Parent::Root, "d", "");
    assert_eq!(first, 1);
    assert_eq!(second, 3);
    assert_ne!(first, second);
    assert_eq!(store.slab_len(), 3);
}

#[test]
fn enter_twice_exit_twice_restores_stack() {
    let mut stack = SpanStack::new();
    stack.push(7);
    let before = stack.current();
    assert!(stack.push(3));
    assert!(!stack.push(3));
    assert_eq!(stack.current(), Some(3));
    assert_eq!(stack.pop(3), None);
    assert_eq!(stack.current(), Some(3));
    assert_eq!(stack.pop(3), Some(3));
    assert_eq!(stack.current(), before);
    assert_eq!(stack.pop(7), Some(7));
    assert_eq!(stack.current(), None);
}

#[test]
fn reentered_span_holds_one_extra_reference() {
    let (mut store, mut stack) = fresh();
    let id = store.new_span(&stack, Parent::Root, "s", "");
    store.push(&mut stack, id);
    store.push(&mut stack, id);
    store.pop(&mut stack, id);
    store.pop(&mut stack, id);
    assert_eq!(store.current(&stack), None);
    // only the creator's reference is left
    assert!(store.drop_span(id));
}

#[test]
fn mismatched_exit_is_ignored() {
    let (mut store, mut stack) = fresh();
    let a = store.new_span(&stack, Parent::Root, "a", "");
    let b = store.new_span(&stack, Parent::Root, "b", "");
    store.push(&mut stack, a);
    store.push(&mut stack, b);
    store.pop(&mut stack, a);
    assert_eq!(store.current(&stack), Some(b));
    store.pop(&mut stack, b);
    assert_eq!(store.current(&stack), Some(a));
}

#[test]
fn reused_slot_has_no_old_fields() {
    let (mut store, stack) = fresh();
    let a = store.new_span(&stack, Parent::Root, "a", "x=1");
    store.record(a, " y=2");
    assert_eq!(store.get(a).unwrap().fields(), "x=1 y=2");
    assert!(store.drop_span(a));
    let b = store.new_span(&stack, Parent::Root, "b", "z=3");
    assert_eq!(b, a);
    assert_eq!(store.get(b).unwrap().fields(), "z=3");
    assert_eq!(*store.get(b).unwrap().metadata(), "b");
    let c = store.new_span(&stack, Parent::Root, "c", "");
    assert_eq!(store.get(c).unwrap().fields(), "");
}

#[test]
fn record_on_closed_span_is_ignored() {
    let (mut store, stack) = fresh();
    let a = store.new_span(&stack, Parent::Root, "a", "k=v");
    assert!(store.drop_span(a));
    store.record(a, "late=1");
    assert!(store.get(a).is_none());
    store.record(99, "nobody=1");
    assert_eq!(store.slab_len(), 1);
}

#[test]
fn clone_then_drop_keeps_span() {
    let (mut store, stack) = fresh();
    let a = store.new_span(&stack, Parent::Root, "a", "");
    assert_eq!(store.clone_span(a), a);
    assert!(!store.drop_span(a));
    assert!(store.get(a).is_some());
    assert!(store.drop_span(a));
    assert!(store.get(a).is_none());
}

#[test]
fn closing_child_releases_parent() {
    let (mut store, stack) = fresh();
    let p = store.new_span(&stack, Parent::Root, "p", "");
    let c = store.new_span(&stack, Parent::Explicit(p), "c", "");
    assert_eq!(store.get(c).unwrap().parent(), Some(p));
    // the creator lets go of the parent first; the child keeps it alive
    assert!(!store.drop_span(p));
    assert!(store.get(p).is_some());
    assert!(store.drop_span(c));
    assert!(store.get(p).is_none());
    assert_eq!(store.free_head(), 0);
}

#[test]
fn closed_explicit_parent_is_not_kept() {
    let (mut store, stack) = fresh();
    let p = store.new_span(&stack, Parent::Root, "p", "");
    assert!(store.drop_span(p));
    let c = store.new_span(&stack, Parent::Explicit(p), "c", "");
    assert_eq!(store.get(c).unwrap().parent(), None);
    let d = store.new_span(&stack, Parent::Explicit(0), "d", "");
    assert_eq!(store.get(d).unwrap().parent(), None);
}

#[test]
fn contextual_without_entered_span_is_root() {
    let (mut store, stack) = fresh();
    let a = store.new_span(&stack, Parent::Contextual, "a", "");
    assert_eq!(store.get(a).unwrap().parent(), None);
}

#[test]
fn chain_runs_root_to_current() {
    let (mut store, mut stack) = fresh();
    assert!(store.span_chain(&stack).is_empty());
    let a = store.new_span(&stack, Parent::Root, "a", "");
    store.push(&mut stack, a);
    let b = store.new_span(&stack, Parent::Contextual, "b", "");
    store.push(&mut stack, b);
    let c = store.new_span(&stack, Parent::Contextual, "c", "");
    store.push(&mut stack, c);
    store.push(&mut stack, b);
    assert_eq!(store.current(&stack), Some(c));
    assert_eq!(store.span_chain(&stack), vec![1, 2, 3]);
    let other = store.new_span(&stack, Parent::Root, "o", "");
    store.push(&mut stack, other);
    assert_eq!(store.span_chain(&stack), vec![4]);
}

#[test]
fn slab_never_shrinks() {
    let (mut store, stack) = fresh();
    let ids: Vec<u64> = (0..5)
        .map(|_| store.new_span(&stack, Parent::Root, "s", ""))
        .collect();
    assert_eq!(ids, vec![1, 2, 3, 4, 5]);
    for id in &ids {
        assert!(store.drop_span(*id));
        assert_eq!(store.slab_len(), 5);
    }
    assert_eq!(store.free_head(), 4);
    assert_eq!(store.new_span(&stack, Parent::Root, "s", ""), 5);
    assert_eq!(store.slab_len(), 5);
}

#[test]
fn dropping_unknown_or_closed_id_keeps_free_list() {
    let (mut store, stack) = fresh();
    let a = store.new_span(&stack, Parent::Root, "a", "");
    let b = store.new_span(&stack, Parent::Root, "b", "");
    assert!(store.drop_span(a));
    assert_eq!(store.free_head(), 0);
    assert!(!store.drop_span(a));
    assert!(!store.drop_span(0));
    assert!(!store.drop_span(42));
    assert_eq!(store.free_head(), 0);
    assert_eq!(store.slab_len(), 2);
    assert!(store.get(b).is_some());
    assert_eq!(store.new_span(&stack, Parent::Root, "c", ""), 1);
    assert_eq!(store.new_span(&stack, Parent::Root, "d", ""), 3);
}
