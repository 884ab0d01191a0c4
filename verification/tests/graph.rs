use std::cmp::Ordering;
use std::collections::HashMap;

use mbse_testlib::arrange::requirement_anchored_order;
use mbse_testlib::graph::{closure, direct_sources, uncovered, Direction};
use mbse_testlib::natural::natural_cmp;
use mbse_testlib::trace_model::{LinkType, TraceNode, TraceNodeKind};

fn e(s: u32, t: u32, lt: LinkType) -> (u128, u128, LinkType) {
    (s as u128, t as u128, lt)
}

#[test]
fn closure_up_and_down_are_mirrors() {
    let links = [e(1, 2, LinkType::DerivesFrom), e(2, 3, LinkType::DerivesFrom)];
    let roots = [1u128];
    let up = closure(&links, &roots, Direction::Up, None);
    assert!(up.contains(&2) && up.contains(&3));

    let roots3 = [3u128];
    let down = closure(&links, &roots3, Direction::Down, None);
    assert!(down.contains(&2) && down.contains(&1));
}

#[test]
fn closure_handles_cycle_without_infinite_loop() {
    let links = [e(1, 2, LinkType::DerivesFrom), e(2, 1, LinkType::DerivesFrom)];
    let roots = [1u128];
    let down = closure(&links, &roots, Direction::Down, None);
    assert!(down.contains(&2));
    let up = closure(&links, &roots, Direction::Up, None);
    assert!(up.contains(&2));
}

#[test]
fn allowed_filter_excludes_reference_like_links() {
    let links = [e(1, 2, LinkType::DerivesFrom), e(1, 3, LinkType::PartOf)];
    let roots = [1u128];
    let allowed = [LinkType::DerivesFrom];
    let up = closure(&links, &roots, Direction::Up, Some(&allowed));
    assert!(up.contains(&2));
    assert!(!up.contains(&3));
}

#[test]
fn closure_mirror_holds_on_a_branching_graph() {
    let links = [
        e(1, 2, LinkType::DerivesFrom),
        e(2, 3, LinkType::Verifies),
        e(4, 3, LinkType::DerivesFrom),
        e(5, 1, LinkType::Refines),
    ];
    for a in 1u128..=5 {
        let up = closure(&links, &[a], Direction::Up, None);
        for b in 1u128..=5 {
            if a == b {
                continue;
            }
            let down = closure(&links, &[b], Direction::Down, None);
            assert_eq!(up.contains(&b), down.contains(&a), "a={a} b={b}");
        }
    }
    let up1 = closure(&links, &[1], Direction::Up, None);
    assert_eq!(up1.len(), 2);
    assert!(!up1.contains(&1));
}

#[test]
fn direct_sources_lists_incoming_in_link_order() {
    let links = [
        e(3, 1, LinkType::DerivesFrom),
        e(4, 1, LinkType::PartOf),
        e(5, 1, LinkType::Verifies),
        e(6, 2, LinkType::DerivesFrom),
    ];
    let all = direct_sources(&links, 1, None);
    assert_eq!(all, vec![(3, LinkType::DerivesFrom), (4, LinkType::PartOf), (5, LinkType::Verifies)]);
    let allowed = [LinkType::DerivesFrom, LinkType::Verifies];
    let some = direct_sources(&links, 1, Some(&allowed));
    assert_eq!(some, vec![(3, LinkType::DerivesFrom), (5, LinkType::Verifies)]);
}

#[test]
fn natural_cmp_is_number_aware() {
    assert_eq!(natural_cmp("TC-2", "TC-10"), Ordering::Less);
    assert_eq!(natural_cmp("REC-10", "REC-2"), Ordering::Greater);
    assert_eq!(natural_cmp("R-5.4", "SR-1"), Ordering::Less);
}

#[test]
fn natural_cmp_is_antisymmetric_and_reflexive() {
    let xs = ["", "a", "a1", "a01", "a10", "a2b", "B", "b", "10", "9", "x-1.2", "x-1.10"];
    for a in xs {
        assert_eq!(natural_cmp(a, a), Ordering::Equal);
        for b in xs {
            assert_eq!(natural_cmp(a, b), natural_cmp(b, a).reverse(), "{a} vs {b}");
        }
    }
    assert_eq!(natural_cmp("a2", "a10"), Ordering::Less);
}

fn node(id: u32, kind: TraceNodeKind, reference: &str) -> TraceNode {
    let mut n = TraceNode::new(kind, "src".into(), reference.to_string(), None, reference.to_string(), None);
    n.id = id as u128;
    n
}

#[test]
fn anchored_order_uses_front_requirement_and_puts_orphans_last() {
    let nodes = vec![
        node(1, TraceNodeKind::SoftwareRequirement, "SR-1"),
        node(2, TraceNodeKind::SoftwareRequirement, "SR-2"),
        node(3, TraceNodeKind::TestItem, "IT-1"),
        node(4, TraceNodeKind::TestItem, "IT-2"),
        node(5, TraceNodeKind::TestItem, "IT-B"),
        node(6, TraceNodeKind::TestItem, "IT-X"),
    ];
    let links = [
        e(3, 1, LinkType::DerivesFrom),
        e(4, 2, LinkType::DerivesFrom),
        e(5, 1, LinkType::DerivesFrom),
        e(5, 2, LinkType::DerivesFrom),
    ];
    let key: HashMap<u128, i32> = requirement_anchored_order(&nodes, &links).into_iter().collect();
    assert_eq!(key[&1], 0);
    assert_eq!(key[&2], 1);
    assert_eq!(key[&3], 0);
    assert_eq!(key[&5], 1);
    assert_eq!(key[&4], 2);
    assert_eq!(key[&6], 3);
}

#[test]
fn uncovered_lists_software_requirements_without_incoming_trace() {
    fn node(id: u32, kind: TraceNodeKind) -> TraceNode {
        let mut n = TraceNode::new(kind, "src".into(), id.to_string(), None, format!("title {id}"), None);
        n.id = id as u128;
        n
    }
    let nodes = vec![
        node(1, TraceNodeKind::SoftwareRequirement),
        node(2, TraceNodeKind::SoftwareRequirement),
        node(3, TraceNodeKind::TestItem),
    ];
    let links = [e(3, 2, LinkType::DerivesFrom)];
    let uncovered = uncovered(&nodes, &links);
    assert_eq!(uncovered, vec![1u128]);
}

#[test]
fn uncovered_ignores_reference_like_links() {
    let nodes = vec![node(1, TraceNodeKind::SoftwareRequirement, "SR-1"), node(2, TraceNodeKind::TestItem, "IT-1")];
    let links = [e(2, 1, LinkType::PartOf)];
    assert_eq!(uncovered(&nodes, &links), vec![1u128]);
    let links = [e(2, 1, LinkType::Satisfies)];
    assert!(uncovered(&nodes, &links).is_empty());
}

#[test]
fn kind_and_link_names_round_trip() {
    for k in [
        TraceNodeKind::SoftwareRequirement,
        TraceNodeKind::TestItem,
        TraceNodeKind::TestCase,
        TraceNodeKind::TestRecord,
        TraceNodeKind::TestReport,
    ] {
        assert_eq!(TraceNodeKind::parse(k.as_str()), Some(k));
        assert_eq!(TraceNodeKind::parse(&k.as_str().to_uppercase()), Some(k));
    }
    for t in [LinkType::DerivesFrom, LinkType::Verifies, LinkType::Satisfies, LinkType::Refines, LinkType::PartOf] {
        assert_eq!(LinkType::parse(t.as_str()), Some(t));
    }
    assert_eq!(TraceNodeKind::parse("requirement"), None);
    assert_eq!(LinkType::as_str(&LinkType::DerivesFrom), "derives_from");
}

#[test]
fn natural_cmp_compares_long_digit_runs_by_value() {
    assert_eq!(natural_cmp("1", "18446744073709551616"), Ordering::Less);
    assert_eq!(natural_cmp("SR-99999999999999999999", "SR-100000000000000000000"), Ordering::Less);
    assert_eq!(natural_cmp("TC-0018446744073709551617", "TC-18446744073709551616"), Ordering::Greater);
    assert_eq!(natural_cmp("R-007", "R-7"), Ordering::Equal);
}

#[test]
fn anchored_order_ignores_the_order_of_its_inputs() {
    let nodes = vec![
        node(1, TraceNodeKind::SoftwareRequirement, "SR-10"),
        node(2, TraceNodeKind::SoftwareRequirement, "SR-2"),
        node(3, TraceNodeKind::TestItem, "IT-1"),
        node(4, TraceNodeKind::TestItem, "IT-2"),
        node(7, TraceNodeKind::TestCase, "TC-1"),
        node(8, TraceNodeKind::TestCase, "TC-1"),
    ];
    let links = vec![
        e(3, 1, LinkType::DerivesFrom),
        e(4, 2, LinkType::DerivesFrom),
        e(7, 4, LinkType::Verifies),
        e(8, 3, LinkType::Verifies),
    ];
    let forward = requirement_anchored_order(&nodes, &links);
    let mut nodes_rev = nodes.clone();
    nodes_rev.reverse();
    let mut links_rev = links.clone();
    links_rev.reverse();
    assert_eq!(requirement_anchored_order(&nodes_rev, &links_rev), forward);
}
