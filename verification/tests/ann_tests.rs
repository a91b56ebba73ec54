use std::sync::Arc;

use feox_ann::{AnnConfig, AnnIndex};
use feox_vector::ann::{AnnQueryPlan, AnnScope, AnnSnapshot};
use feox_vector::MetadataFilterIndex;

fn snapshot(dimensions: usize, ids: &[&str]) -> Arc<AnnSnapshot> {
    let mut index = AnnIndex::new(AnnConfig::for_dimensions(dimensions)).unwrap();
    for (n, id) in ids.iter().enumerate() {
        let mut vector = vec![0.0f32; dimensions];
        vector[n % dimensions] = 1.0;
        index.upsert(id.to_string(), &vector).unwrap();
    }
    Arc::new(AnnSnapshot {
        index,
        filters: MetadataFilterIndex::new(),
    })
}

fn is_exact(plan: &AnnQueryPlan, schedule: bool) -> bool {
    matches!(plan, AnnQueryPlan::Exact { schedule_rebuild } if *schedule_rebuild == schedule)
}

#[test]
fn snapshot_reports_its_dimensions_and_size() {
    let snap = snapshot(3, &["a", "b"]);
    assert_eq!(snap.dimensions(), 3);
    assert_eq!(snap.len(), 2);
}

#[test]
fn a_new_scope_answers_exactly_and_asks_for_a_build() {
    let scope = AnnScope::new();
    assert!(scope.snapshot().is_none());
    assert!(!scope.is_dirty());
    assert!(!scope.is_rebuilding());
    assert!(is_exact(&scope.plan_query(2), true));
    assert!(scope.query_snapshot().is_none());
}

#[test]
fn a_published_snapshot_serves_queries_of_its_dimensions() {
    let mut scope = AnnScope::new();
    assert!(scope.begin_rebuild());
    assert!(!scope.begin_rebuild());
    assert!(is_exact(&scope.plan_query(2), true));
    scope.publish(snapshot(2, &["a"]));
    assert!(!scope.is_rebuilding());
    assert!(matches!(scope.plan_query(2), AnnQueryPlan::Snapshot(s) if s.len() == 1));
    assert!(scope.query_snapshot().is_some());
    assert!(is_exact(&scope.plan_query(3), true));
}

#[test]
fn a_write_after_the_build_forces_exact_answers() {
    let mut scope = AnnScope::new();
    scope.begin_rebuild();
    scope.publish(snapshot(2, &["a"]));
    scope.mark_dirty();
    assert!(scope.is_dirty());
    assert!(scope.requires_exact_query());
    assert!(is_exact(&scope.plan_query(2), true));
    assert!(scope.query_snapshot().is_none());
    assert!(scope.snapshot().is_some());

    assert!(scope.begin_rebuild());
    assert!(!scope.is_dirty());
    assert!(is_exact(&scope.plan_query(2), false));
    scope.publish(snapshot(2, &["a", "b"]));
    assert!(matches!(scope.plan_query(2), AnnQueryPlan::Snapshot(s) if s.len() == 2));
}

#[test]
fn a_write_during_a_build_keeps_the_scope_dirty() {
    let mut scope = AnnScope::new();
    scope.begin_rebuild();
    scope.mark_dirty();
    scope.publish(snapshot(2, &["a"]));
    assert!(scope.is_dirty());
    assert!(is_exact(&scope.plan_query(2), true));
}

#[test]
fn a_failed_build_leaves_the_scope_dirty() {
    let mut scope = AnnScope::new();
    scope.begin_rebuild();
    scope.finish_failed_rebuild();
    assert!(scope.is_dirty());
    assert!(!scope.is_rebuilding());
    assert!(is_exact(&scope.plan_query(2), true));
}
