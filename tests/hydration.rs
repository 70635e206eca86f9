use silkenweb::hydration::{hydrate, hydration_plan, is_blank, is_reserved, Attr, Step, VNode};

fn text(t: &str) -> VNode {
    VNode::Text { text: t.to_string() }
}

fn elem(tag: &str, attrs: &[(&str, &str)], children: Vec<VNode>) -> VNode {
    VNode::Element {
        tag: tag.to_string(),
        attrs: attrs
            .iter()
            .map(|(n, v)| Attr { name: n.to_string(), value: v.to_string() })
            .collect(),
        children,
    }
}

fn item(n: u32) -> VNode {
    elem("li", &[("class", "item")], vec![text(&format!("item {}", n))])
}

#[test]
fn list_with_whitespace_and_missing_item() {
    let generated = elem("ul", &[], vec![item(1), item(2), item(3)]);
    let existing = vec![elem("ul", &[], vec![item(1), item(2), text("\n  ")])];
    let stats = hydrate(&generated, &existing);
    assert_eq!(stats.nodes_added(), 1);
    assert_eq!(stats.empty_text_removed(), 1);
    assert_eq!(stats.nodes_removed(), 0);
    assert!(!stats.exact_match());
    assert!(!stats.only_whitespace_diffs());
}

#[test]
fn identical_markup_is_an_exact_match() {
    let generated = elem(
        "div",
        &[("id", "main"), ("data-silkenweb-test", "1")],
        vec![elem("button", &[("class", "inc")], vec![text("+")]), elem("p", &[], vec![text("0")])],
    );
    let existing = vec![elem(
        "div",
        &[("id", "main"), ("data-silkenweb-test", "1")],
        vec![elem("button", &[("class", "inc")], vec![text("+")]), elem("p", &[], vec![text("0")])],
    )];
    let stats = hydrate(&generated, &existing);
    assert!(stats.exact_match());
    assert!(stats.only_whitespace_diffs());
}

#[test]
fn empty_mount_point_adds_the_root() {
    let stats = hydrate(&elem("div", &[], vec![]), &vec![]);
    assert_eq!(stats.nodes_added(), 1);
    assert_eq!(stats.nodes_removed(), 0);
}

#[test]
fn mismatched_tag_is_replaced() {
    let generated = elem("div", &[], vec![elem("p", &[], vec![])]);
    let existing = vec![elem("div", &[], vec![elem("span", &[], vec![]), elem("i", &[], vec![])])];
    let stats = hydrate(&generated, &existing);
    assert_eq!(stats.nodes_added(), 1);
    assert_eq!(stats.nodes_removed(), 2);
    assert_eq!(stats.empty_text_removed(), 0);
}

#[test]
fn whitespace_before_a_match_is_discarded_and_counted_apart() {
    let generated = elem("div", &[], vec![elem("p", &[], vec![])]);
    let existing = vec![elem("div", &[], vec![text(" \t"), elem("p", &[], vec![])])];
    let stats = hydrate(&generated, &existing);
    assert_eq!(stats.empty_text_removed(), 1);
    assert_eq!(stats.nodes_added(), 1);
    assert_eq!(stats.nodes_removed(), 1);
}

#[test]
fn attributes_are_reconciled() {
    let generated = elem("a", &[("href", "/x"), ("class", "c"), ("data-silkenweb-id", "7")], vec![]);
    let existing = vec![elem(
        "a",
        &[("href", "/y"), ("title", "t"), ("data-silkenweb-old", "1")],
        vec![],
    )];
    let stats = hydrate(&generated, &existing);
    assert_eq!(stats.attributes_set(), 2);
    assert_eq!(stats.attributes_removed(), 1);
    assert_eq!(stats.nodes_added(), 0);
    assert!(!stats.only_whitespace_diffs());
}

#[test]
fn text_for_element_is_a_mismatch() {
    let generated = text("hello");
    let existing = vec![elem("p", &[], vec![])];
    let stats = hydrate(&generated, &existing);
    assert_eq!(stats.nodes_added(), 1);
    assert_eq!(stats.nodes_removed(), 1);
}

#[test]
fn blank_texts() {
    assert!(is_blank(&"".to_string()));
    assert!(is_blank(&" \n\t\u{a0}\u{3000}".to_string()));
    assert!(!is_blank(&" a ".to_string()));
}

#[test]
fn reserved_attribute_names() {
    assert!(is_reserved(&"data-silkenweb".to_string()));
    assert!(is_reserved(&"data-silkenweb-test".to_string()));
    assert!(!is_reserved(&"data-silken".to_string()));
    assert!(!is_reserved(&"data-other".to_string()));
}

#[test]
fn plan_for_list_with_whitespace() {
    let generated = elem("ul", &[], vec![item(1), item(2), item(3)]);
    let existing = vec![elem("ul", &[], vec![item(1), item(2), text("\n  ")])];
    let plan = hydration_plan(&generated, &existing);
    let creates: Vec<Vec<usize>> = plan
        .iter()
        .filter_map(|s| match s {
            Step::Create { path } => Some(path.clone()),
            _ => None,
        })
        .collect();
    assert_eq!(creates, vec![vec![0, 2]]);
    assert!(plan.iter().all(|s| !matches!(s, Step::RemoveFrom { .. })));
    assert!(matches!(&plan[0], Step::Reuse { path } if path == &vec![0]));
}

#[test]
fn plan_repairs_attributes_text_and_extra_nodes() {
    let generated = elem("p", &[("class", "a")], vec![text("new")]);
    let existing = vec![
        elem("p", &[("title", "t")], vec![text("old"), elem("b", &[], vec![])]),
        text("trailing"),
    ];
    let plan = hydration_plan(&generated, &existing);
    assert_eq!(plan.len(), 7);
    assert!(matches!(&plan[0], Step::Reuse { path } if path == &vec![0]));
    assert!(matches!(&plan[1], Step::SetAttribute { name, value, .. } if name == "class" && value == "a"));
    assert!(matches!(&plan[2], Step::RemoveAttribute { name, .. } if name == "title"));
    assert!(matches!(&plan[3], Step::Reuse { path } if path == &vec![0, 0]));
    assert!(matches!(&plan[4], Step::SetText { text, .. } if text == "new"));
    assert!(matches!(&plan[5], Step::RemoveFrom { path, index: 1 } if path == &vec![0]));
    assert!(matches!(&plan[6], Step::RemoveFrom { path, index: 1 } if path.is_empty()));
}

#[test]
fn plan_for_empty_mount_point_creates_the_root() {
    let plan = hydration_plan(&text("x"), &vec![]);
    assert_eq!(plan.len(), 1);
    assert!(matches!(&plan[0], Step::Create { path } if path == &vec![0]));
}

#[test]
fn identical_markup_plan_only_reuses() {
    let make = || elem("div", &[("id", "x")], vec![elem("span", &[], vec![text("a")]), text("b")]);
    let plan = hydration_plan(&make(), &vec![make()]);
    assert_eq!(plan.len(), 4);
    assert!(plan.iter().all(|s| matches!(s, Step::Reuse { .. })));
}

#[test]
fn attribute_steps_make_attributes_match() {
    let generated = elem("a", &[("href", "/x"), ("class", "c"), ("data-silkenweb-id", "7")], vec![]);
    let existing_attrs = [("href", "/y"), ("title", "t"), ("data-silkenweb-old", "1")];
    let existing = vec![elem("a", &existing_attrs, vec![])];
    let mut attrs: std::collections::BTreeMap<String, String> = existing_attrs
        .iter()
        .map(|(n, v)| (n.to_string(), v.to_string()))
        .collect();
    let plan = hydration_plan(&generated, &existing);
    let mut attr_steps = 0;
    for step in &plan {
        match step {
            Step::SetAttribute { name, value, .. } => {
                attrs.insert(name.clone(), value.clone());
                attr_steps += 1;
            }
            Step::RemoveAttribute { name, .. } => {
                attrs.remove(name);
                attr_steps += 1;
            }
            _ => {}
        }
    }
    let expected: std::collections::BTreeMap<String, String> = [
        ("href", "/x"),
        ("class", "c"),
        ("data-silkenweb-old", "1"),
    ]
    .iter()
    .map(|(n, v)| (n.to_string(), v.to_string()))
    .collect();
    assert_eq!(attrs, expected);
    let stats = hydrate(&generated, &existing);
    assert_eq!(stats.attributes_set() + stats.attributes_removed(), attr_steps);
}
