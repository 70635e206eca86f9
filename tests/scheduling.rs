use silkenweb::dom::{DomElement, DomNodeData, DomOp, DomText, Update};
use silkenweb::scheduler::{next_live, Scheduler};
use silkenweb::signal::State;
use silkenweb::tree::LiveTree;

#[test]
fn first_queued_update_requests_one_paint() {
    let mut s: Scheduler<u32, u32> = Scheduler::new();
    assert!(s.is_idle());
    assert!(s.queue_update(0, 1));
    assert!(!s.queue_update(0, 2));
    assert!(s.queue_effect(7));
    assert!(!s.queue_effect(8));
    assert!(!s.is_idle());
}

#[test]
fn update_after_effect_still_requests_a_paint() {
    let mut s: Scheduler<u32, u32> = Scheduler::new();
    assert!(s.queue_effect(1));
    assert!(s.queue_update(0, 2));
    assert!(!s.queue_update(0, 3));
}

#[test]
fn ancestor_update_applies_before_descendant() {
    let mut tree = LiveTree::new();
    let root = tree.add_node(None);
    let child = tree.add_node(Some(root));
    let grandchild = tree.add_node(Some(child));
    let mut s: Scheduler<&str, &str> = Scheduler::new();
    s.queue_update(grandchild, "grandchild");
    s.queue_update(child, "child");
    s.queue_update(root, "root");
    s.queue_effect("focus");
    let updates = s.process_updates(&tree);
    let effects = s.take_effects();
    let order: Vec<&str> = updates.iter().map(|q| q.update).collect();
    assert_eq!(order, vec!["root", "child", "grandchild"]);
    assert_eq!(effects, vec!["focus"]);
    assert!(s.is_idle());
}

#[test]
fn equal_depths_keep_queue_order() {
    let mut tree = LiveTree::new();
    let root = tree.add_node(None);
    let a = tree.add_node(Some(root));
    let b = tree.add_node(Some(root));
    let mut s: Scheduler<u32, ()> = Scheduler::new();
    s.queue_update(b, 1);
    s.queue_update(a, 2);
    s.queue_update(b, 3);
    let updates = s.process_updates(&tree);
    let order: Vec<u32> = updates.iter().map(|q| q.update).collect();
    assert_eq!(order, vec![1, 2, 3]);
}

#[test]
fn updates_of_expired_owners_are_dropped() {
    let mut tree = LiveTree::new();
    let root = tree.add_node(None);
    let child = tree.add_node(Some(root));
    let grandchild = tree.add_node(Some(child));
    tree.discard(child);
    assert_eq!(tree.depth(grandchild), None);
    assert_eq!(tree.depth(root), Some(0));
    let mut s: Scheduler<u32, ()> = Scheduler::new();
    s.queue_update(grandchild, 1);
    s.queue_update(root, 2);
    s.queue_update(99, 3);
    let updates = s.process_updates(&tree);
    let order: Vec<u32> = updates.iter().map(|q| q.update).collect();
    assert_eq!(order, vec![2]);
}

#[test]
fn single_update_of_expired_owner_is_dropped() {
    let mut tree = LiveTree::new();
    let a = tree.add_node(None);
    let mut s: Scheduler<u32, ()> = Scheduler::new();
    s.queue_update(a, 1);
    let updates = s.process_updates(&tree);
    assert_eq!(updates.len(), 1);
    assert_eq!(updates[0].owner, a);
    tree.discard(a);
    s.queue_update(a, 2);
    let updates = s.process_updates(&tree);
    assert!(updates.is_empty());
}

#[test]
fn depth_counts_ancestors() {
    let mut tree = LiveTree::new();
    let a = tree.add_node(None);
    let b = tree.add_node(Some(a));
    let c = tree.add_node(Some(b));
    assert_eq!(tree.depth(c), Some(2));
    assert_eq!(tree.parent(c), Some(b));
    tree.set_parent(c, None);
    assert_eq!(tree.depth(c), Some(0));
    assert_eq!(tree.parent(c), None);
    assert_eq!(tree.len(), 3);
}

#[test]
fn counter_shows_last_value_after_one_flush() {
    let mut tree = LiveTree::new();
    let app = tree.add_node(None);
    let mut app_elem = DomElement::new(app, "div");
    let mut scheduler: Scheduler<Update, ()> = Scheduler::new();
    let mut state = State::new(0u64, 0, app);

    let node = tree.add_node(None);
    let first = state.with(|v| {
        let mut e = DomElement::new(node, "span");
        e.attribute("data-value", Some(&format!("{}", v)));
        e.on(10);
        e
    });
    app_elem.append_child_now(first);
    tree.set_parent(first, Some(app));

    let mut requests = 0;
    if state.setter().set(&mut scheduler, 1) {
        requests += 1;
    }
    if state.setter().set(&mut scheduler, 2) {
        requests += 1;
    }
    assert_eq!(requests, 1);

    // One flush: apply the signal, rebuild its dependent, put it in place.
    let fresh_node = tree.add_node(None);
    let generations = std::cell::Cell::new(0);
    let mut shown = Vec::new();
    let mut ordered = scheduler.process_updates(&tree);
    while let Some(q) = next_live(&mut ordered, &tree) {
        match q.update {
            Update::Signal { signal } => {
                assert_eq!(signal, state.setter().signal());
                let ops = state.setter().apply(|_, v: &u64| {
                    generations.set(generations.get() + 1);
                    let mut e = DomElement::new(fresh_node, "span");
                    e.attribute("data-value", Some(&format!("{}", v)));
                    e
                });
                for op in ops {
                    let (applied, detached) = app_elem.apply(op);
                    assert!(applied);
                    let (listeners, tasks) = detached.unwrap().teardown();
                    assert_eq!(listeners, vec![10]);
                    assert!(tasks.is_empty());
                    tree.set_parent(fresh_node, Some(app));
                    tree.discard(first);
                }
            }
            Update::Dom { .. } => panic!("no structural update was queued"),
        }
        shown.push(*state.setter().current());
    }
    assert!(scheduler.is_idle());
    assert_eq!(generations.get(), 1);
    assert_eq!(shown, vec![2]);
    assert_eq!(app_elem.children(), &vec![fresh_node]);
    assert_eq!(state.setter().dependent_node(0), fresh_node);
    assert!(!tree.is_live(first));
}

#[test]
fn descendant_update_is_dropped_after_its_ancestor_is_rebuilt() {
    let mut tree = LiveTree::new();
    let root = tree.add_node(None);
    let parent = tree.add_node(Some(root));
    let child = tree.add_node(Some(parent));
    let mut s: Scheduler<&str, ()> = Scheduler::new();
    s.queue_update(child, "child");
    s.queue_update(parent, "parent");
    let mut ordered = s.process_updates(&tree);
    let first = next_live(&mut ordered, &tree).unwrap();
    assert_eq!(first.update, "parent");
    tree.discard(parent);
    assert!(next_live(&mut ordered, &tree).is_none());
    assert!(ordered.is_empty());
}

#[test]
fn effects_queued_during_the_updates_run_in_the_same_flush() {
    let tree = LiveTree::new();
    let mut s: Scheduler<u32, &str> = Scheduler::new();
    s.queue_effect("before");
    s.queue_update(0, 1);
    let updates = s.process_updates(&tree);
    assert!(updates.is_empty());
    assert!(!s.queue_effect("during"));
    assert_eq!(s.take_effects(), vec!["before", "during"]);
    assert!(s.is_idle());
}

#[test]
fn map_and_edit_compose_in_call_order() {
    let mut scheduler: Scheduler<Update, ()> = Scheduler::new();
    let mut state = State::new(10i64, 3, 0);
    assert!(state.setter().map(&mut scheduler, |v| v + 1));
    assert!(!state.setter().edit(&mut scheduler, |v| v * 2));
    assert_eq!(*state.setter().current(), 10);
    assert!(state.setter().apply(|_, _: &i64| DomElement::new(0, "p")).is_empty());
    assert_eq!(*state.setter().current(), 22);
    let tree = LiveTree::new();
    assert!(!scheduler.is_idle());
    let _ = scheduler.process_updates(&tree);
    let _ = scheduler.take_effects();
    assert!(scheduler.is_idle());
}

#[test]
fn deferred_mutations_apply_at_flush() {
    let mut tree = LiveTree::new();
    let p = tree.add_node(None);
    let mut parent = DomElement::new(p, "ul");
    let mut s: Scheduler<Update, ()> = Scheduler::new();
    let mut old = DomElement::new(11, "li");
    old.spawn_future(300);
    assert!(parent.insert_child_before(&mut s, 11, None));
    assert!(!parent.insert_child_before(&mut s, 10, Some(11)));
    assert!(!parent.replace_child(&mut s, 12, DomNodeData::Element(old)));
    assert!(parent.children().is_empty());
    let updates = s.process_updates(&tree);
    let mut released = Vec::new();
    for q in updates {
        assert_eq!(q.owner, p);
        if let Update::Dom { op } = q.update {
            let (applied, detached) = parent.apply(op);
            assert!(applied);
            if let Some(d) = detached {
                released.push(d.teardown());
            }
        }
    }
    assert_eq!(released, vec![(vec![], vec![300])]);
    assert_eq!(parent.children(), &vec![10, 12]);
    let mut s2: Scheduler<Update, ()> = Scheduler::new();
    parent.remove_child(&mut s2, DomNodeData::Text(DomText::new(10, "x")));
    parent.clear_children(&mut s2);
    let updates = s2.process_updates(&tree);
    assert_eq!(updates.len(), 2);
    let mut ops = updates.into_iter().map(|q| match q.update {
        Update::Dom { op } => op,
        Update::Signal { .. } => panic!("no signal was queued"),
    });
    let (applied, detached) = parent.apply(ops.next().unwrap());
    assert!(applied);
    assert!(detached.is_some());
    assert_eq!(parent.children(), &vec![12]);
    assert!(parent.apply(ops.next().unwrap()).0);
    assert!(parent.children().is_empty());
}

#[test]
fn text_update_is_deferred() {
    let mut tree = LiveTree::new();
    let n = tree.add_node(None);
    let mut t = DomText::new(n, "old");
    let mut s: Scheduler<Update, ()> = Scheduler::new();
    assert!(t.set_text(&mut s, "new".to_string()));
    assert_eq!(t.text(), "old");
    let updates = s.process_updates(&tree);
    for q in updates {
        if let Update::Dom { op } = q.update {
            assert!(t.apply(op).0);
        }
    }
    assert_eq!(t.text(), "new");
    let (applied, detached) = t.apply(DomOp::Remove { removed: DomNodeData::Text(DomText::new(9, "x")) });
    assert!(!applied);
    assert!(detached.is_some());
    assert_eq!(t.text(), "new");
}

#[test]
fn discarding_a_node_expires_its_subtree() {
    let mut tree = LiveTree::new();
    let root = tree.add_node(None);
    let child = tree.add_node(Some(root));
    let leaf = tree.add_node(Some(child));
    assert!(tree.is_live(leaf));
    tree.discard(root);
    assert!(!tree.is_live(leaf));
    assert!(!tree.is_live(root));
    assert!(!tree.is_live(7));
}
