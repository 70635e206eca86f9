use silkenweb::child_groups::ChildGroups;
use silkenweb::containers::{ChangeTrackingVec, DeltaId, TagSource, VecDelta};
use silkenweb::dom::{DomElement, DomNode, DomNodeData, DomOp, DomText, Thunk};
use silkenweb::mount::{Apps, Scope};

#[test]
fn groups_keep_slot_order() {
    let mut g = ChildGroups::new();
    let a = g.new_group();
    let b = g.new_group();
    let c = g.new_group();
    assert_eq!((a, b, c), (0, 1, 2));
    g.insert_only_child(c, 30);
    g.insert_only_child(a, 10);
    assert_eq!(g.children(), &vec![10, 30]);
    assert!(!g.upsert_only_child(b, 20));
    assert_eq!(g.children(), &vec![10, 20, 30]);
    assert!(g.upsert_only_child(a, 11));
    assert_eq!(g.children(), &vec![11, 20, 30]);
    assert!(g.remove_child(b));
    assert!(!g.remove_child(b));
    assert_eq!(g.children(), &vec![11, 30]);
    assert!(!g.upsert_only_child(b, 21));
    assert_eq!(g.children(), &vec![11, 21, 30]);
    assert_eq!(g.get_next_group_elem(a), Some(21));
    assert_eq!(g.get_next_group_elem(c), None);
}

#[test]
fn sync_group_anchors_the_dynamic_one_before_it() {
    let mut g = ChildGroups::new();
    let a = g.new_group();
    g.append_new_group_sync(50);
    assert!(!g.is_single_group());
    g.insert_only_child(a, 40);
    assert_eq!(g.children(), &vec![40, 50]);
    g.append_new_group_sync(60);
    assert_eq!(g.children(), &vec![40, 50, 60]);
}

#[test]
fn single_group() {
    let mut g = ChildGroups::new();
    g.append_new_group_sync(1);
    assert!(g.is_single_group());
    assert_eq!(g.children(), &vec![1]);
}

#[test]
fn last_child_and_first_child_of_a_group() {
    let mut g = ChildGroups::new();
    let a = g.new_group();
    let b = g.new_group();
    g.insert_only_child(b, 9);
    g.insert_last_child(a, 1);
    g.insert_last_child(a, 2);
    assert_eq!(g.children(), &vec![1, 2, 9]);
    g.clear_first_child(b);
    assert_eq!(g.get_next_group_elem(a), None);
    g.set_first_child(b, 9);
    assert_eq!(g.get_next_group_elem(a), Some(9));
}

#[test]
fn delta_only_for_the_predecessor() {
    let mut tags = TagSource::new();
    let mut v: ChangeTrackingVec<u32> = ChangeTrackingVec::new(&mut tags);
    let s0 = v.snapshot();
    assert!(v.delta(&s0).is_none());
    v.push(5);
    assert!(matches!(v.delta(&s0), Some(VecDelta::Insert { index: 0 })));
    let s1 = v.snapshot();
    assert!(v.delta(&s1).is_none());
    v.insert(0, 4);
    assert!(v.delta(&s0).is_none());
    assert!(matches!(v.delta(&s1), Some(VecDelta::Insert { index: 0 })));
    let other: ChangeTrackingVec<u32> = ChangeTrackingVec::new(&mut tags);
    let mut foreign = other.snapshot();
    foreign.next();
    assert!(v.delta(&foreign).is_none());
    assert_eq!(v.data(), &[4, 5]);
    let s2 = v.snapshot();
    v.pop();
    assert!(matches!(v.delta(&s2), Some(VecDelta::Remove { index: 1, item: 5 })));
    let s3 = v.snapshot();
    v.remove(0);
    assert!(matches!(v.delta(&s3), Some(VecDelta::Remove { index: 0, item: 4 })));
    assert!(v.is_empty());
    assert_eq!(v.len(), 0);
}

#[test]
fn delta_ids_follow_each_other() {
    let mut tags = TagSource::new();
    assert_eq!(tags.fresh(), 0);
    let a = DeltaId::new(1);
    let mut b = a;
    b.next();
    assert!(b.is_next(&a));
    assert!(!a.is_next(&b));
    assert!(!b.is_next(&DeltaId::new(4)));
    let v: ChangeTrackingVec<u8> = ChangeTrackingVec::new(&mut tags);
    assert_eq!(v.snapshot(), a);
}

#[test]
fn indexing_a_change_tracking_vec() {
    let mut v: ChangeTrackingVec<char> = ChangeTrackingVec::new(&mut TagSource::new());
    v.push('a');
    v.push('b');
    assert_eq!(*v.index(1), 'b');
}

#[test]
fn teardown_releases_every_resource_once() {
    let mut parent = DomElement::new(1, "div");
    parent.on(100);
    parent.on(101);
    parent.spawn_future(200);
    let mut child = DomElement::new(2, "button");
    child.on(102);
    child.spawn_future(201);
    child.spawn_future(202);
    parent.store_child(child);
    let (listeners, tasks) = parent.teardown();
    assert_eq!(listeners, vec![100, 101, 102]);
    assert_eq!(tasks, vec![200, 201, 202]);
}

#[test]
fn attributes_set_replace_and_remove() {
    let mut e = DomElement::new_in_namespace(3, "http://www.w3.org/2000/svg", "svg");
    e.attribute("width", Some("10"));
    e.attribute("height", Some("20"));
    e.attribute("width", Some("30"));
    e.attribute("height", None);
    e.attribute("missing", None);
    assert_eq!(e.node(), 3);
    assert!(!e.is_thunk());
}

#[test]
fn synchronous_child_mutations() {
    let mut e = DomElement::new(0, "ul");
    e.append_child_now(5);
    e.insert_child_before_now(4, Some(5));
    e.insert_child_before_now(6, None);
    assert_eq!(e.children(), &vec![4, 5, 6]);
    let removed = e.remove_child_now(DomNodeData::Element(DomElement::new(5, "li")));
    assert_eq!(removed.map(|d| d.dom_node()), Some(5));
    assert_eq!(e.children(), &vec![4, 6]);
    assert!(!e.apply_now(&DomOp::Remove { removed: DomNodeData::Text(DomText::new(5, "")) }));
    assert!(!e.apply_now(&DomOp::InsertBefore { child: 4, next: None }));
    assert!(!e.apply_now(&DomOp::SetText { text: "x".to_string() }));
    assert_eq!(e.children(), &vec![4, 6]);
}

#[test]
fn nodes_report_their_handle() {
    let n = DomNodeData::Text(DomText::new(8, "t"));
    assert_eq!(n.dom_node(), 8);
    assert!(!n.is_thunk());
    let m = DomNodeData::Element(DomElement::new(9, "p"));
    assert_eq!(m.dom_node(), 9);
}

#[test]
fn mounting_an_id_again_unmounts_the_previous_element() {
    let mut apps = Apps::new();
    assert!(apps.mount("app", DomElement::new(1, "div")).is_none());
    assert!(apps.mount("other", DomElement::new(2, "div")).is_none());
    let previous = apps.mount("app", DomElement::new(3, "div"));
    assert_eq!(previous.map(|e| e.node()), Some(1));
    assert_eq!(apps.unmount("app").map(|e| e.node()), Some(3));
    assert!(apps.unmount("app").is_none());
}

#[test]
fn scope_holds_its_value() {
    let s = Scope::new(5);
    assert_eq!(*s.get(), 5);
}

#[test]
fn iterating_a_change_tracking_vec() {
    let mut v: ChangeTrackingVec<u32> = ChangeTrackingVec::new(&mut TagSource::new());
    v.push(1);
    v.push(2);
    v.insert(1, 9);
    let items: Vec<u32> = v.iter().copied().collect();
    assert_eq!(items, vec![1, 9, 2]);
}

#[test]
fn shrinking_keeps_contents() {
    let mut g = ChildGroups::new();
    let a = g.new_group();
    g.insert_only_child(a, 3);
    g.shrink_to_fit();
    assert_eq!(g.children(), &vec![3]);
    assert_eq!(g.get_next_group_elem(a), None);

    let mut e = DomElement::new(0, "div");
    e.append_child_now(1);
    e.on(5);
    e.shrink_to_fit();
    assert_eq!(e.children(), &vec![1]);
    let (listeners, tasks) = e.teardown();
    assert_eq!(listeners, vec![5]);
    assert!(tasks.is_empty());
}

#[test]
fn fork_copies_items_under_a_new_identity() {
    let mut tags = TagSource::new();
    let mut v: ChangeTrackingVec<String> = ChangeTrackingVec::new(&mut tags);
    v.push("a".to_string());
    let before = v.snapshot();
    let mut w = v.fork(&mut tags);
    assert_ne!(w.snapshot(), v.snapshot());
    assert_eq!(w.data(), &["a".to_string()]);
    assert!(w.delta(&before).is_none());
    w.push("b".to_string());
    assert!(w.delta(&before).is_none());
    assert_eq!(v.len(), 1);
    assert_eq!(w.len(), 2);
}
