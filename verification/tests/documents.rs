use mbse_testlib::document_model::{TemplateEdge, TemplateNode, TemplateNodeType};
use mbse_testlib::document_service::DocumentService;
use mbse_testlib::error::ServiceError;

fn uuid(s: &str) -> u128 {
    uuid::Uuid::parse_str(s).unwrap().as_u128()
}

fn node(id: &str, template_id: u128, title: &str, sort_key: i32) -> TemplateNode {
    let mut n = TemplateNode::new(
        template_id,
        TemplateNodeType::Section,
        title.into(),
        serde_json::Value::Object(serde_json::Map::new()),
        sort_key,
    );
    n.id = uuid(id);
    n
}

fn contains(template_id: u128, parent: &TemplateNode, child: &TemplateNode) -> TemplateEdge {
    TemplateEdge {
        id: uuid::Uuid::new_v4().as_u128(),
        template_id,
        source_node_id: parent.id,
        target_node_id: child.id,
        edge_type: "contains".into(),
        created_at: 0,
    }
}

fn titles(ns: &[TemplateNode]) -> Vec<&str> {
    ns.iter().map(|n| n.title.as_str()).collect()
}

fn err<T>(r: Result<T, ServiceError>) -> ServiceError {
    match r {
        Ok(_) => panic!("expected an error"),
        Err(e) => e,
    }
}

#[test]
fn ordered_nodes_without_edges_falls_back_to_flat_sort() {
    let tid = uuid::Uuid::new_v4().as_u128();
    let a = node("10000000-0000-0000-0000-00000000000a", tid, "A", 5);
    let b = node("10000000-0000-0000-0000-00000000000b", tid, "B", 1);
    let c = node("10000000-0000-0000-0000-00000000000c", tid, "C", 3);
    let ordered = DocumentService::ordered_nodes(vec![a, b, c], &[]);
    assert_eq!(titles(&ordered), vec!["B", "C", "A"]);
}

#[test]
fn ordered_nodes_puts_parent_before_children_in_document_order() {
    let tid = uuid::Uuid::new_v4().as_u128();
    let ch1 = node("10000000-0000-0000-0000-000000000001", tid, "第1章", 0);
    let ch2 = node("10000000-0000-0000-0000-000000000002", tid, "第2章", 1);
    let s1 = node("10000000-0000-0000-0000-000000000011", tid, "1.1", 1);
    let s2 = node("10000000-0000-0000-0000-000000000012", tid, "1.2", 2);
    let edges = vec![contains(tid, &ch1, &s1), contains(tid, &ch1, &s2)];
    let ordered = DocumentService::ordered_nodes(vec![s2, ch1, ch2, s1], &edges);
    assert_eq!(titles(&ordered), vec!["第1章", "1.1", "1.2", "第2章"]);
}

#[test]
fn ordered_nodes_ignores_non_contains_edges_and_cycles() {
    let tid = uuid::Uuid::new_v4().as_u128();
    let ch1 = node("10000000-0000-0000-0000-000000000001", tid, "第1章", 0);
    let s1 = node("10000000-0000-0000-0000-000000000011", tid, "1.1", 0);
    let mut ref_back = contains(tid, &ch1, &s1);
    ref_back.edge_type = "references".into();
    let ordered = DocumentService::ordered_nodes(vec![s1.clone(), ch1.clone()], &[contains(tid, &ch1, &s1), ref_back]);
    assert_eq!(titles(&ordered), vec!["第1章", "1.1"]);

    let mut back = contains(tid, &ch1, &s1);
    back.source_node_id = s1.id;
    back.target_node_id = ch1.id;
    let cyc = DocumentService::ordered_nodes(vec![s1.clone(), ch1.clone()], &[contains(tid, &ch1, &s1), back]);
    assert_eq!(cyc.len(), 2);
}

#[test]
fn ordered_nodes_nests_deeper_levels_in_preorder() {
    let tid = 7u128;
    let a = node("10000000-0000-0000-0000-000000000001", tid, "A", 0);
    let a1 = node("10000000-0000-0000-0000-000000000002", tid, "A1", 0);
    let a11 = node("10000000-0000-0000-0000-000000000003", tid, "A11", 0);
    let b = node("10000000-0000-0000-0000-000000000004", tid, "B", 1);
    let edges = vec![contains(tid, &a1, &a11), contains(tid, &a, &a1)];
    let ordered = DocumentService::ordered_nodes(vec![b, a11, a1, a], &edges);
    assert_eq!(titles(&ordered), vec!["A", "A1", "A11", "B"]);
}

#[test]
fn template_lifecycle_with_nodes_and_edges() {
    let mut docs = DocumentService::new();
    let tpl = docs.create_template("大纲A".into(), "大纲".into(), None).unwrap();
    assert!(matches!(err(docs.create_template("  ".into(), "大纲".into(), None)), ServiceError::Validation(_)));
    let n1 = docs.create_node(tpl.id, TemplateNodeType::Chapter, " 第1章 ".into(), None, Some(1)).unwrap();
    let n2 = docs.create_node(tpl.id, TemplateNodeType::Section, "1.1".into(), None, None).unwrap();
    assert_eq!(n1.title, "第1章");
    assert_eq!(n2.sort_key, 0);
    let e = docs.add_edge(tpl.id, n1.id, n2.id, "contains".into()).unwrap();
    assert!(matches!(err(docs.add_edge(tpl.id, n1.id, n1.id, "contains".into())), ServiceError::Validation(_)));
    assert!(matches!(err(docs.add_edge(tpl.id, n1.id, 12345, "contains".into())), ServiceError::NotFound(_)));

    let (t, nodes, edges) = docs.get_template_full(tpl.id).unwrap();
    assert_eq!(t.name, "大纲A");
    assert_eq!(titles(&nodes), vec!["1.1", "第1章"]);
    assert_eq!(edges.len(), 1);
    let ordered = DocumentService::ordered_nodes(nodes, &edges);
    assert_eq!(titles(&ordered), vec!["第1章", "1.1"]);

    docs.remove_edge(e.id).unwrap();
    assert!(matches!(err(docs.remove_edge(e.id)), ServiceError::NotFound(_)));
    docs.add_edge(tpl.id, n1.id, n2.id, "contains".into()).unwrap();
    docs.delete_node(n2.id).unwrap();
    let (_, nodes, edges) = docs.get_template_full(tpl.id).unwrap();
    assert_eq!(nodes.len(), 1);
    assert!(edges.is_empty());

    docs.delete_template(tpl.id).unwrap();
    assert!(matches!(err(docs.get_template(tpl.id)), ServiceError::NotFound(_)));
    assert!(docs.list_templates().is_empty());
}

#[test]
fn update_and_reorder_nodes() {
    let mut docs = DocumentService::new();
    let tpl = docs.create_template("报告".into(), "报告".into(), Some("说明".into())).unwrap();
    let a = docs.create_node(tpl.id, TemplateNodeType::Chapter, "A".into(), None, Some(1)).unwrap();
    let b = docs.create_node(tpl.id, TemplateNodeType::Chapter, "B".into(), None, Some(2)).unwrap();
    let upd = docs.update_node(a.id, Some(TemplateNodeType::Appendix), Some("A'".into()), None, None, None).unwrap();
    assert_eq!(upd.title, "A'");
    assert_eq!(upd.node_type, TemplateNodeType::Appendix);
    assert!(matches!(
        err(docs.update_node(a.id, None, Some(" ".into()), None, None, None)),
        ServiceError::Validation(_)
    ));
    let nodes = docs.reorder_nodes(tpl.id, vec![(a.id, 9), (b.id, 0)]).unwrap();
    assert_eq!(titles(&nodes), vec!["B", "A'"]);
    let t = docs.update_template(tpl.id, Some("报告2".into()), None, None).unwrap();
    assert_eq!(t.name, "报告2");
    assert_eq!(t.kind, "报告");
    assert!(matches!(err(docs.list_nodes(99)), ServiceError::NotFound(_)));
}

#[test]
fn node_type_names_round_trip() {
    for t in [
        TemplateNodeType::FrontMatter,
        TemplateNodeType::Chapter,
        TemplateNodeType::Section,
        TemplateNodeType::Paragraph,
        TemplateNodeType::Table,
        TemplateNodeType::Figure,
        TemplateNodeType::Appendix,
        TemplateNodeType::TraceView,
    ] {
        assert_eq!(TemplateNodeType::parse(t.as_str()), Some(t));
    }
    assert_eq!(TemplateNodeType::parse("CHAPTER"), Some(TemplateNodeType::Chapter));
    assert_eq!(TemplateNodeType::parse("chap"), None);
}

#[test]
fn document_order_without_contains_edges_is_the_flat_order() {
    let tid = uuid::Uuid::new_v4().as_u128();
    let a = node("10000000-0000-0000-0000-00000000000a", tid, "A", 2);
    let b = node("10000000-0000-0000-0000-00000000000b", tid, "B", 0);
    let c = node("10000000-0000-0000-0000-00000000000c", tid, "C", 1);
    let mut refers = contains(tid, &a, &b);
    refers.edge_type = "references".into();
    let mut refers_back = contains(tid, &c, &a);
    refers_back.edge_type = "depends_on".into();
    let nodes = vec![a, b, c];
    let ordered = DocumentService::ordered_nodes(nodes.clone(), &[refers, refers_back]);
    let flat = DocumentService::sort_nodes(nodes);
    assert_eq!(titles(&ordered), vec!["B", "C", "A"]);
    assert_eq!(titles(&ordered), titles(&flat));
}
