use std::collections::HashSet;

use mbse_testlib::error::ServiceError;
use mbse_testlib::graph::Direction;
use mbse_testlib::trace_ingest::{ExternalKey, IngestLink, IngestNode, UploadRequirement};
use mbse_testlib::trace_model::{LinkType, TraceNode, TraceNodeKind};
use mbse_testlib::trace_service::TraceService;

fn pid() -> u128 {
    0x0000_0000_0000_4000_8000_0000_0000_0001
}

fn empty() -> serde_json::Value {
    serde_json::Value::Object(serde_json::Map::new())
}

fn err<T>(r: Result<T, ServiceError>) -> ServiceError {
    match r {
        Ok(_) => panic!("expected an error"),
        Err(e) => e,
    }
}

fn ok<T>(r: Result<T, ServiceError>) -> T {
    match r {
        Ok(v) => v,
        Err(e) => panic!("unexpected error: {e:?}"),
    }
}

fn inode(kind: TraceNodeKind, reference: &str, title: &str) -> IngestNode {
    IngestNode {
        kind,
        external_source: "el".into(),
        external_ref: reference.into(),
        module: None,
        title: title.into(),
        description: None,
        attributes: empty(),
    }
}

fn key(reference: &str) -> ExternalKey {
    ExternalKey { external_source: "el".into(), external_ref: reference.into() }
}

fn mk(svc: &mut TraceService, project: u128, kind: TraceNodeKind, reference: &str, title: &str) -> TraceNode {
    ok(svc.create_node(project, kind, "el".into(), reference.into(), None, title.into(), None))
}

#[test]
fn ingest_upserts_idempotently_and_resolves_links() {
    let mut svc = TraceService::new();
    let nodes = || {
        vec![
            inode(TraceNodeKind::SoftwareRequirement, "SR1", "软需1"),
            inode(TraceNodeKind::TestItem, "TI1", "测项1"),
        ]
    };
    let links = || {
        vec![IngestLink { source: key("TI1"), target: key("SR1"), link_type: LinkType::DerivesFrom, attributes: empty() }]
    };
    let r1 = ok(svc.ingest(pid(), nodes(), links()));
    assert_eq!(r1.nodes_upserted, 2);
    assert_eq!(r1.links_upserted, 1);
    assert!(r1.unresolved_links.is_empty());
    let ids1: Vec<u128> = svc.list_nodes(pid()).iter().map(|n| n.id).collect();

    let r2 = ok(svc.ingest(pid(), nodes(), links()));
    assert_eq!(r2.nodes_upserted, 2);
    assert_eq!(r2.links_upserted, 1);
    assert_eq!(svc.list_nodes(pid()).len(), 2);
    assert_eq!(svc.list_links(pid()).len(), 1);
    let ids2: Vec<u128> = svc.list_nodes(pid()).iter().map(|n| n.id).collect();
    assert_eq!(ids1, ids2);
}

#[test]
fn ingest_skips_unresolved_link() {
    let mut svc = TraceService::new();
    let nodes = vec![inode(TraceNodeKind::SoftwareRequirement, "SR1", "软需")];
    let links = vec![IngestLink { source: key("NOPE"), target: key("SR1"), link_type: LinkType::DerivesFrom, attributes: empty() }];
    let r = ok(svc.ingest(pid(), nodes, links));
    assert_eq!(r.links_upserted, 0);
    assert_eq!(r.unresolved_links.len(), 1);
    assert_eq!(r.unresolved_links[0], "el:NOPE -> el:SR1");
}

#[test]
fn ingest_trims_keys_and_skips_self_links() {
    let mut svc = TraceService::new();
    let nodes = vec![inode(TraceNodeKind::SoftwareRequirement, " SR1 ", " 软需 ")];
    let links = vec![IngestLink { source: key("SR1"), target: key("SR1"), link_type: LinkType::Refines, attributes: empty() }];
    let r = ok(svc.ingest(pid(), nodes, links));
    assert_eq!(r.links_upserted, 0);
    assert!(r.unresolved_links.is_empty());
    let n = &svc.list_nodes(pid())[0];
    assert_eq!(n.external_ref, "SR1");
    assert_eq!(n.title, "软需");
}

#[test]
fn upload_requirements_maps_to_sr_nodes_and_is_idempotent() {
    let mut svc = TraceService::new();
    let items = || {
        let mut attrs = serde_json::Map::new();
        attrs.insert("owner".into(), serde_json::Value::String("rd".into()));
        vec![
            UploadRequirement {
                id: "SR-3.2.1".into(),
                title: Some("3.2.1 支持账号密码登录".into()),
                description: Some("系统应支持账号密码登录。".into()),
                module: Some("登录".into()),
                section: Some("3.2.1".into()),
                attributes: serde_json::Value::Object(attrs),
            },
            UploadRequirement { id: "".into(), title: None, description: None, module: None, section: None, attributes: empty() },
            UploadRequirement { id: "SR-3.2.2".into(), title: None, description: None, module: None, section: None, attributes: empty() },
        ]
    };
    let r1 = ok(svc.upload_requirements(pid(), "reqtool".into(), items()));
    assert_eq!(r1.uploaded, 2);
    assert_eq!(r1.skipped.len(), 1);

    let nodes = svc.list_nodes(pid());
    assert_eq!(nodes.len(), 2);
    let sr = nodes.iter().find(|n| n.external_ref == "SR-3.2.1").unwrap();
    assert_eq!(sr.kind, TraceNodeKind::SoftwareRequirement);
    assert_eq!(sr.external_source, "reqtool");
    assert_eq!(sr.attributes["source_section"], "3.2.1");
    assert_eq!(sr.attributes["owner"], "rd");
    let fallback = nodes.iter().find(|n| n.external_ref == "SR-3.2.2").unwrap();
    assert_eq!(fallback.title, "SR-3.2.2");
    let ids1: Vec<u128> = nodes.iter().map(|n| n.id).collect();

    let r2 = ok(svc.upload_requirements(pid(), "reqtool".into(), items()));
    assert_eq!(r2.uploaded, 2);
    assert_eq!(svc.list_nodes(pid()).len(), 2);
    let ids2: Vec<u128> = svc.list_nodes(pid()).iter().map(|n| n.id).collect();
    assert_eq!(ids1, ids2);
}

#[test]
fn upload_requirements_rejects_empty_source() {
    let mut svc = TraceService::new();
    let e = err(svc.upload_requirements(pid(), "  ".into(), vec![]));
    assert!(matches!(e, ServiceError::Validation(_)));
}

#[test]
fn create_node_duplicate_external_conflicts() {
    let mut svc = TraceService::new();
    mk(&mut svc, pid(), TraceNodeKind::SoftwareRequirement, "SR1", "a");
    let e = err(svc.create_node(pid(), TraceNodeKind::TestItem, "el".into(), "SR1".into(), None, "b".into(), None));
    assert!(matches!(e, ServiceError::Conflict(_)));
}

#[test]
fn create_node_validates_and_places_at_stage_end() {
    let mut svc = TraceService::new();
    let e = err(svc.create_node(pid(), TraceNodeKind::TestItem, " ".into(), "X".into(), None, "t".into(), None));
    assert!(matches!(e, ServiceError::Validation(_)));
    let a = mk(&mut svc, pid(), TraceNodeKind::TestItem, "I1", "一");
    let b = mk(&mut svc, pid(), TraceNodeKind::TestItem, "I2", "二");
    let c = mk(&mut svc, pid(), TraceNodeKind::TestCase, "C1", "用例");
    assert_eq!((a.sort_key, b.sort_key, c.sort_key), (0, 1, 0));
}

#[test]
fn create_link_guards_self_and_missing() {
    let mut svc = TraceService::new();
    let n = mk(&mut svc, pid(), TraceNodeKind::SoftwareRequirement, "SR1", "a");
    let self_err = err(svc.create_link(pid(), n.id, n.id, LinkType::DerivesFrom));
    assert!(matches!(self_err, ServiceError::Validation(_)));
    let other = uuid::Uuid::new_v4().as_u128();
    let missing = err(svc.create_link(pid(), n.id, other, LinkType::DerivesFrom));
    assert!(matches!(missing, ServiceError::NotFound(_)));
}

#[test]
fn delete_node_and_link_are_scoped_to_the_project() {
    let mut svc = TraceService::new();
    let a = mk(&mut svc, pid(), TraceNodeKind::SoftwareRequirement, "SR1", "a");
    let b = mk(&mut svc, pid(), TraceNodeKind::TestItem, "TI1", "b");
    let l = ok(svc.create_link(pid(), b.id, a.id, LinkType::DerivesFrom));
    let other = uuid::Uuid::new_v4().as_u128();
    assert!(matches!(err(svc.delete_link(other, l.id)), ServiceError::NotFound(_)));
    ok(svc.delete_link(pid(), l.id));
    assert!(svc.list_links(pid()).is_empty());
    assert!(matches!(err(svc.delete_link(pid(), l.id)), ServiceError::NotFound(_)));
    assert!(matches!(err(svc.delete_node(other, a.id)), ServiceError::NotFound(_)));
    ok(svc.delete_node(pid(), a.id));
    assert!(matches!(err(svc.get_node(pid(), a.id)), ServiceError::NotFound(_)));
    assert!(matches!(err(svc.delete_node(pid(), a.id)), ServiceError::NotFound(_)));
    assert_eq!(svc.list_nodes(pid()).len(), 1);
}

#[test]
fn update_node_changes_only_given_fields() {
    let mut svc = TraceService::new();
    let a = mk(&mut svc, pid(), TraceNodeKind::SoftwareRequirement, "SR1", "原标题");
    let u = ok(svc.update_node(pid(), a.id, None, Some(" 新标题 ".into()), None, Some("模块".into()), None));
    assert_eq!(u.title, "新标题");
    assert_eq!(u.module.as_deref(), Some("模块"));
    assert_eq!(u.kind, TraceNodeKind::SoftwareRequirement);
    assert_eq!(u.external_ref, "SR1");
    let e = err(svc.update_node(pid(), a.id, None, Some("  ".into()), None, None, None));
    assert!(matches!(e, ServiceError::Validation(_)));
}

#[test]
fn arrange_anchors_by_requirement_and_apply_order_rewrites() {
    let mut svc = TraceService::new();
    let sr1 = mk(&mut svc, pid(), TraceNodeKind::SoftwareRequirement, "SR-1", "SR-1");
    let sr2 = mk(&mut svc, pid(), TraceNodeKind::SoftwareRequirement, "SR-2", "SR-2");
    let it1 = mk(&mut svc, pid(), TraceNodeKind::TestItem, "IT-1", "IT-1");
    let it2 = mk(&mut svc, pid(), TraceNodeKind::TestItem, "IT-2", "IT-2");
    ok(svc.create_link(pid(), it1.id, sr1.id, LinkType::DerivesFrom));
    ok(svc.create_link(pid(), it2.id, sr2.id, LinkType::DerivesFrom));

    svc.arrange(pid());
    assert_eq!(ok(svc.get_node(pid(), sr1.id)).sort_key, 0);
    assert_eq!(ok(svc.get_node(pid(), sr2.id)).sort_key, 1);
    assert_eq!(ok(svc.get_node(pid(), it1.id)).sort_key, 0);
    assert_eq!(ok(svc.get_node(pid(), it2.id)).sort_key, 1);

    svc.apply_order(pid(), vec![(it1.id, 5), (it2.id, 3), (uuid::Uuid::new_v4().as_u128(), 9)]);
    assert_eq!(ok(svc.get_node(pid(), it1.id)).sort_key, 5);
    assert_eq!(ok(svc.get_node(pid(), it2.id)).sort_key, 3);

    svc.arrange(pid());
    assert_eq!(ok(svc.get_node(pid(), it1.id)).sort_key, 0);
    assert_eq!(ok(svc.get_node(pid(), it2.id)).sort_key, 1);
}

#[test]
fn matrix_and_coverage_report_uncovered_sr() {
    let mut svc = TraceService::new();
    mk(&mut svc, pid(), TraceNodeKind::SoftwareRequirement, "SR1", "软需1");
    let sr2 = mk(&mut svc, pid(), TraceNodeKind::SoftwareRequirement, "SR2", "软需2");
    let tr = mk(&mut svc, pid(), TraceNodeKind::TestItem, "TI1", "测项1");
    ok(svc.create_link(pid(), tr.id, sr2.id, LinkType::DerivesFrom));

    let coverage = svc.coverage(pid());
    assert_eq!(coverage.len(), 1);
    assert_eq!(coverage[0].external_ref, "SR1");

    let m = svc.matrix(pid());
    assert_eq!(m.rows.len(), 2);
    let row_sr2 = m.rows.iter().find(|r| r.requirement.id == sr2.id).unwrap();
    assert_eq!(row_sr2.covering.len(), 1);
}

#[test]
fn reachable_follows_direction_and_filter() {
    let mut svc = TraceService::new();
    let sr = mk(&mut svc, pid(), TraceNodeKind::SoftwareRequirement, "SR", "需求");
    let ti = mk(&mut svc, pid(), TraceNodeKind::TestItem, "TI", "测项");
    let tc = mk(&mut svc, pid(), TraceNodeKind::TestCase, "TC", "用例");
    ok(svc.create_link(pid(), ti.id, sr.id, LinkType::DerivesFrom));
    ok(svc.create_link(pid(), tc.id, ti.id, LinkType::Verifies));
    let down = svc.reachable(pid(), vec![sr.id], Direction::Down, None);
    let ids: Vec<u128> = down.iter().map(|n| n.id).collect();
    assert_eq!(ids.len(), 2);
    assert!(ids.contains(&ti.id) && ids.contains(&tc.id));
    assert!(ids[0] < ids[1]);
    let only = svc.reachable(pid(), vec![sr.id], Direction::Down, Some(vec![LinkType::DerivesFrom]));
    assert_eq!(only.len(), 1);
    let up = svc.reachable(pid(), vec![tc.id], Direction::Up, None);
    assert_eq!(up.len(), 2);
}

#[test]
fn create_test_item_links_derives_from_to_all_requirements() {
    let mut svc = TraceService::new();
    let r1 = mk(&mut svc, pid(), TraceNodeKind::SoftwareRequirement, "SR1", "软需1");
    let r2 = mk(&mut svc, pid(), TraceNodeKind::SoftwareRequirement, "SR2", "软需2");
    let ti = ok(svc.create_test_item(pid(), "登录态校验".into(), Some("登录".into()), None, vec![r1.id, r2.id, r1.id]));
    assert_eq!(ti.kind, TraceNodeKind::TestItem);
    assert_eq!(ti.external_source, "manual");
    assert!(ti.external_ref.starts_with("manual-ti-"));

    let links = svc.list_links(pid());
    assert_eq!(links.len(), 2);
    for l in &links {
        assert_eq!(l.source_node_id, ti.id);
        assert_eq!(l.link_type, LinkType::DerivesFrom);
    }
    let targets: HashSet<u128> = links.iter().map(|l| l.target_node_id).collect();
    assert!(targets.contains(&r1.id) && targets.contains(&r2.id));
}

#[test]
fn create_test_item_rejects_empty_title_or_no_requirement() {
    let mut svc = TraceService::new();
    let e1 = err(svc.create_test_item(pid(), "  ".into(), None, None, vec![uuid::Uuid::new_v4().as_u128()]));
    assert!(matches!(e1, ServiceError::Validation(_)));
    let e2 = err(svc.create_test_item(pid(), "标题".into(), None, None, vec![]));
    assert!(matches!(e2, ServiceError::Validation(_)));
}

#[test]
fn create_test_item_rejects_non_requirement_or_cross_project() {
    let mut svc = TraceService::new();
    let req = mk(&mut svc, pid(), TraceNodeKind::SoftwareRequirement, "SR1", "软需1");
    let case = mk(&mut svc, pid(), TraceNodeKind::TestCase, "TC1", "用例1");
    let e1 = err(svc.create_test_item(pid(), "标题".into(), None, None, vec![case.id]));
    assert!(matches!(e1, ServiceError::Validation(_)));
    let e2 = err(svc.create_test_item(pid(), "标题".into(), None, None, vec![uuid::Uuid::new_v4().as_u128()]));
    assert!(matches!(e2, ServiceError::NotFound(_)));
    let other = uuid::Uuid::new_v4().as_u128();
    let e3 = err(svc.create_test_item(other, "标题".into(), None, None, vec![req.id]));
    assert!(matches!(e3, ServiceError::NotFound(_)));
}

#[test]
fn baseline_is_scoped_to_project() {
    let mut svc = TraceService::new();
    mk(&mut svc, pid(), TraceNodeKind::SoftwareRequirement, "SR1", "软需1");
    ok(svc.create_baseline(pid(), "基线A".into(), None, empty()));
    assert_eq!(svc.list_baselines(pid()).len(), 1);
    let other = uuid::Uuid::new_v4().as_u128();
    assert!(svc.list_baselines(other).is_empty());
    let e = err(svc.create_baseline(pid(), " ".into(), None, empty()));
    assert!(matches!(e, ServiceError::Validation(_)));
}

#[test]
fn trace_data_is_isolated_by_project() {
    let mut svc = TraceService::new();
    let a = pid();
    let b = uuid::Uuid::new_v4().as_u128();
    ok(svc.ingest(a, vec![inode(TraceNodeKind::SoftwareRequirement, "SR1", "需求A")], vec![]));

    assert!(svc.list_nodes(b).is_empty());
    assert!(svc.list_links(b).is_empty());

    let nb = mk(&mut svc, b, TraceNodeKind::SoftwareRequirement, "SR1", "需求B");
    assert_eq!(nb.project_id, b);

    let nodes_a = svc.list_nodes(a);
    let nodes_b = svc.list_nodes(b);
    assert_eq!(nodes_a.len(), 1);
    assert_eq!(nodes_b.len(), 1);
    assert_ne!(nodes_a[0].id, nodes_b[0].id);

    assert!(svc.get_node(a, nodes_a[0].id).is_ok());
    assert!(matches!(svc.get_node(b, nodes_a[0].id), Err(ServiceError::NotFound(_))));

    assert_eq!(svc.coverage(a).len(), 1);
    assert_eq!(svc.coverage(b).len(), 1);
}

#[test]
fn room_checks_follow_the_largest_sort_key_of_the_stage() {
    let mut svc = TraceService::new();
    assert!(svc.stage_has_room(pid(), TraceNodeKind::TestItem, 1));
    let it = mk(&mut svc, pid(), TraceNodeKind::TestItem, "IT-1", "测项");
    let sr = mk(&mut svc, pid(), TraceNodeKind::SoftwareRequirement, "SR-1", "需求");
    svc.apply_order(pid(), vec![(it.id, i32::MAX - 1), (sr.id, i32::MAX)]);
    assert!(svc.stage_has_room(pid(), TraceNodeKind::TestItem, 1));
    assert!(!svc.stage_has_room(pid(), TraceNodeKind::TestItem, 2));
    assert!(!svc.stage_has_room(pid(), TraceNodeKind::SoftwareRequirement, 1));
    assert!(svc.stage_has_room(pid(), TraceNodeKind::SoftwareRequirement, 0));
    assert!(svc.ingest_has_room(pid(), &vec![inode(TraceNodeKind::TestItem, "IT-2", "测项2")]));
    assert!(!svc.ingest_has_room(pid(), &vec![inode(TraceNodeKind::SoftwareRequirement, "SR-2", "需求2")]));
    let skipped = UploadRequirement { id: " ".into(), title: None, description: None, module: None, section: None, attributes: empty() };
    let accepted = UploadRequirement { id: "SR-9".into(), title: None, description: None, module: None, section: None, attributes: empty() };
    assert!(svc.upload_has_room(pid(), &vec![skipped]));
    assert!(!svc.upload_has_room(pid(), &vec![accepted]));
    // another project is unaffected
    assert!(svc.stage_has_room(pid() + 1, TraceNodeKind::SoftwareRequirement, 1));
}

#[test]
fn upload_keeps_attribute_entries_of_any_type() {
    let mut svc = TraceService::new();
    let mut attrs = serde_json::Map::new();
    attrs.insert("priority".into(), serde_json::Value::from(3));
    attrs.insert("tags".into(), serde_json::Value::Array(vec![serde_json::Value::from("a")]));
    let item = UploadRequirement {
        id: "SR-1".into(),
        title: None,
        description: None,
        module: None,
        section: Some(" 4.1 ".into()),
        attributes: serde_json::Value::Object(attrs),
    };
    let rep = match svc.upload_requirements(pid(), "reqtool".into(), vec![item]) {
        Ok(r) => r,
        Err(e) => panic!("unexpected error: {:?}", e),
    };
    assert_eq!(rep.uploaded, 1);
    let n = &svc.list_nodes(pid())[0];
    assert_eq!(n.attributes["priority"], serde_json::Value::from(3));
    assert_eq!(n.attributes["tags"][0], "a");
    assert_eq!(n.attributes["source_section"], "4.1");
}
