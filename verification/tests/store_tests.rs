use shard_reconcile::continuity::check_continuity;
use shard_reconcile::model::{HealthClass, ReplicaView};
use shard_reconcile::plan::synthesize;
use shard_reconcile::sorting::sort_resolved_by_start;
use shard_reconcile::store::{resolve_all, InsertError, ReplicaStore};

fn view(
    shard_id: u64,
    node_id: u64,
    start: &str,
    end: &str,
    conf_ver: u64,
    version: u64,
    members: Vec<u64>,
) -> ReplicaView {
    ReplicaView {
        shard_id,
        node_id,
        start_key: start.as_bytes().to_vec(),
        end_key: end.as_bytes().to_vec(),
        conf_ver,
        version,
        members,
    }
}

#[test]
fn unsorted_membership_is_malformed() {
    let mut store = ReplicaStore::new();
    let r = store.insert_view(view(1, 1, "", "m", 1, 1, vec![2, 1]));
    assert_eq!(r, Err(InsertError::MalformedView));
    assert_eq!(store.shard_count(), 0);
}

#[test]
fn repeated_membership_entry_is_malformed() {
    let mut store = ReplicaStore::new();
    let r = store.insert_view(view(1, 1, "", "m", 1, 1, vec![1, 1]));
    assert_eq!(r, Err(InsertError::MalformedView));
}

#[test]
fn second_view_from_one_node_is_a_duplicate() {
    let mut store = ReplicaStore::new();
    assert_eq!(store.insert_view(view(1, 1, "", "m", 1, 1, vec![1])), Ok(()));
    let r = store.insert_view(view(1, 1, "", "m", 2, 2, vec![1]));
    assert_eq!(r, Err(InsertError::DuplicateNode));
    assert_eq!(store.shard_count(), 1);
}

#[test]
fn shards_come_out_in_ascending_order() {
    let mut store = ReplicaStore::new();
    assert_eq!(store.insert_view(view(9, 1, "m", "", 1, 1, vec![1])), Ok(()));
    assert_eq!(store.insert_view(view(4, 1, "", "m", 1, 1, vec![1])), Ok(()));
    assert_eq!(store.insert_view(view(9, 2, "m", "", 1, 1, vec![1])), Ok(()));
    assert_eq!(store.shard_count(), 2);
    let resolved = resolve_all(&store);
    assert_eq!(resolved.len(), 2);
    assert_eq!(resolved[0].shard.id, 4);
    assert_eq!(resolved[1].shard.id, 9);
    assert_eq!(resolved[1].shard.views.len(), 2);
}

#[test]
fn whole_pipeline_runs_forward() {
    let mut store = ReplicaStore::new();
    // Shard 4 covers ["", "m"): healthy on nodes 1 and 2.
    assert_eq!(store.insert_view(view(4, 1, "", "m", 3, 3, vec![1, 2])), Ok(()));
    assert_eq!(store.insert_view(view(4, 2, "", "m", 3, 3, vec![1, 2])), Ok(()));
    // Shard 9 covers ["m", ""): node 2 is stale.
    assert_eq!(store.insert_view(view(9, 1, "m", "", 2, 5, vec![1, 2])), Ok(()));
    assert_eq!(store.insert_view(view(9, 2, "m", "", 1, 4, vec![1, 2])), Ok(()));

    let resolved = resolve_all(&store);
    assert_eq!(resolved[0].class, HealthClass::Healthy);
    assert_eq!(resolved[1].class, HealthClass::AutoFixable);

    let plan = synthesize(&resolved);
    assert!(plan.inconsistent.is_empty());
    assert_eq!(plan.plans.len(), 2);
    assert_eq!(plan.plans[0].node_id, 1);
    assert_eq!(plan.plans[0].trims.len(), 1);
    assert_eq!(plan.plans[0].trims[0].shard_id, 9);
    assert_eq!(plan.plans[0].trims[0].members, vec![2]);
    assert_eq!(plan.plans[1].node_id, 2);
    assert_eq!(plan.plans[1].tombstones, vec![9]);

    let sorted = sort_resolved_by_start(resolved);
    let issues = check_continuity(&sorted);
    assert!(issues.is_empty());
}
