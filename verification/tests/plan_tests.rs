use shard_reconcile::model::{HealthClass, ReplicaView};
use shard_reconcile::plan::{synthesize, TrimEntry};
use shard_reconcile::resolve::resolve;

fn view(
    shard_id: u64,
    node_id: u64,
    start: &str,
    end: &str,
    conf_ver: u64,
    version: u64,
    members: Vec<u64>,
) -> ReplicaView {
    ReplicaView {
        shard_id,
        node_id,
        start_key: start.as_bytes().to_vec(),
        end_key: end.as_bytes().to_vec(),
        conf_ver,
        version,
        members,
    }
}

#[test]
fn stale_replica_is_tombstoned_and_keepers_trim_it() {
    // Shard 1: nodes 1 and 2 (epoch (2, 5), members {1, 2, 3}) are keepers;
    // node 3's replica (epoch (1, 3)) is stale.
    let views = vec![
        view(1, 1, "a", "m", 2, 5, vec![1, 2, 3]),
        view(1, 2, "a", "m", 2, 5, vec![1, 2, 3]),
        view(1, 3, "a", "m", 1, 3, vec![1, 2]),
    ];
    let resolved = resolve(1, views);
    assert_eq!(resolved.class, HealthClass::AutoFixable);
    let plan = synthesize(&vec![resolved]);
    assert!(plan.inconsistent.is_empty());
    assert_eq!(plan.plans.len(), 3);

    // Node 1 keeps its replica and trims the stale member 3.
    assert_eq!(plan.plans[0].node_id, 1);
    assert!(plan.plans[0].tombstones.is_empty());
    assert_eq!(
        plan.plans[0].trims,
        vec![TrimEntry { shard_id: 1, members: vec![3] }]
    );

    // Node 2 likewise.
    assert_eq!(plan.plans[1].node_id, 2);
    assert!(plan.plans[1].tombstones.is_empty());
    assert_eq!(
        plan.plans[1].trims,
        vec![TrimEntry { shard_id: 1, members: vec![3] }]
    );

    // Node 3 discards its replica of shard 1.
    assert_eq!(plan.plans[2].node_id, 3);
    assert_eq!(plan.plans[2].tombstones, vec![1]);
    assert!(plan.plans[2].trims.is_empty());

    // The keepers 1 and 2 are never trimmed anywhere.
    for p in &plan.plans {
        for t in &p.trims {
            assert!(!t.members.contains(&1));
            assert!(!t.members.contains(&2));
        }
    }
}

#[test]
fn selection_conflict_is_skipped_not_guessed() {
    let views = vec![
        view(2, 1, "a", "m", 3, 3, vec![1, 2]),
        view(2, 2, "a", "m", 3, 3, vec![1, 2, 9]),
    ];
    let resolved = resolve(2, views);
    assert_eq!(resolved.class, HealthClass::NeedsSelect);
    let plan = synthesize(&vec![resolved]);
    assert!(plan.plans.is_empty());
    assert!(plan.inconsistent.is_empty());
}

#[test]
fn healthy_shard_draws_no_actions() {
    let views = vec![
        view(3, 1, "a", "m", 4, 9, vec![1, 2]),
        view(3, 2, "a", "m", 4, 9, vec![1, 2]),
    ];
    let resolved = resolve(3, views);
    assert_eq!(resolved.class, HealthClass::Healthy);
    let plan = synthesize(&vec![resolved]);
    assert!(plan.plans.is_empty());
    assert!(plan.inconsistent.is_empty());
}

#[test]
fn contradictory_keeper_membership_is_flagged_fatal() {
    // Nodes 1 and 2 are keepers, but their membership records list {1, 3}
    // only: after trimming 3 the remaining set {1} would not equal the
    // keeper set {1, 2}. The shard is excluded from the plan and flagged.
    let views = vec![
        view(4, 1, "a", "m", 2, 5, vec![1, 3]),
        view(4, 2, "a", "m", 2, 5, vec![1, 3]),
        view(4, 3, "a", "m", 1, 3, vec![1, 2]),
    ];
    let resolved = resolve(4, views);
    assert_eq!(resolved.class, HealthClass::AutoFixable);
    let plan = synthesize(&vec![resolved]);
    assert!(plan.plans.is_empty());
    assert_eq!(plan.inconsistent, vec![4]);
}

#[test]
fn actions_from_several_shards_group_per_node() {
    // Node 2 is stale on shard 10 and a keeper on shard 11.
    let r10 = resolve(
        10,
        vec![
            view(10, 1, "a", "f", 2, 2, vec![1, 2]),
            view(10, 2, "a", "f", 1, 1, vec![1, 2]),
        ],
    );
    let r11 = resolve(
        11,
        vec![
            view(11, 2, "f", "m", 3, 3, vec![2, 5]),
            view(11, 5, "f", "m", 2, 2, vec![2, 5]),
        ],
    );
    assert_eq!(r10.class, HealthClass::AutoFixable);
    assert_eq!(r11.class, HealthClass::AutoFixable);
    let plan = synthesize(&vec![r10, r11]);
    assert!(plan.inconsistent.is_empty());
    // Nodes 1, 2 and 5, in order.
    assert_eq!(plan.plans.len(), 3);
    assert_eq!(plan.plans[0].node_id, 1);
    assert_eq!(
        plan.plans[0].trims,
        vec![TrimEntry { shard_id: 10, members: vec![2] }]
    );
    assert_eq!(plan.plans[1].node_id, 2);
    assert_eq!(plan.plans[1].tombstones, vec![10]);
    assert_eq!(
        plan.plans[1].trims,
        vec![TrimEntry { shard_id: 11, members: vec![5] }]
    );
    assert_eq!(plan.plans[2].node_id, 5);
    assert_eq!(plan.plans[2].tombstones, vec![11]);
    assert!(plan.plans[2].trims.is_empty());
}
