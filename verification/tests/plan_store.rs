use mosaic_core::domain::{ModLoader, ProfileTarget, ReleaseChannel, ResolutionPlan};
use mosaic_core::plan_store::{PlanStore, PLAN_LIMIT};

fn plan(id: &str, bytes: u64) -> ResolutionPlan {
    ResolutionPlan {
        id: id.into(),
        target: ProfileTarget {
            minecraft_version: "1.21.1".into(),
            loader: ModLoader::Fabric,
            release_channels: vec![ReleaseChannel::Release],
        },
        nodes: Vec::new(),
        edges: Vec::new(),
        issues: Vec::new(),
        optional_dependencies: Vec::new(),
        manual_downloads: Vec::new(),
        downloadable_bytes: bytes,
        can_install: false,
    }
}

#[test]
fn a_kept_plan_is_found_by_its_id() {
    let mut store = PlanStore::new();
    store.remember(plan("first", 1));
    store.remember(plan("second", 2));
    assert_eq!(store.find(&"first".to_string()).map(|p| p.downloadable_bytes), Some(1));
    assert_eq!(store.find(&"second".to_string()).map(|p| p.downloadable_bytes), Some(2));
    assert!(store.find(&"third".to_string()).is_none());
}

#[test]
fn a_plan_with_the_same_id_replaces_the_older_one() {
    let mut store = PlanStore::new();
    store.remember(plan("same", 1));
    store.remember(plan("same", 5));
    assert_eq!(store.find(&"same".to_string()).map(|p| p.downloadable_bytes), Some(5));
}

#[test]
fn past_the_limit_the_oldest_plan_is_forgotten() {
    let mut store = PlanStore::new();
    for index in 0..=PLAN_LIMIT {
        store.remember(plan(&format!("plan-{index}"), index as u64));
    }
    assert!(store.find(&"plan-0".to_string()).is_none());
    assert!(store.find(&"plan-1".to_string()).is_some());
    assert_eq!(store.find(&format!("plan-{PLAN_LIMIT}")).map(|p| p.downloadable_bytes), Some(PLAN_LIMIT as u64));
}
