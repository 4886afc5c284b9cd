use shard_reconcile::model::{HealthClass, ReplicaView};
use shard_reconcile::resolve::resolve;

fn view(
    shard_id: u64,
    node_id: u64,
    start: &str,
    end: &str,
    conf_ver: u64,
    version: u64,
    members: Vec<u64>,
) -> ReplicaView {
    ReplicaView {
        shard_id,
        node_id,
        start_key: start.as_bytes().to_vec(),
        end_key: end.as_bytes().to_vec(),
        conf_ver,
        version,
        members,
    }
}

#[test]
fn uniform_views_are_healthy() {
    let views = vec![
        view(7, 1, "a", "m", 4, 9, vec![1, 2, 3]),
        view(7, 2, "a", "m", 4, 9, vec![1, 2, 3]),
        view(7, 3, "a", "m", 4, 9, vec![1, 2, 3]),
    ];
    let r = resolve(7, views);
    assert_eq!(r.class, HealthClass::Healthy);
    assert_eq!(r.shard.id, 7);
    assert_eq!(r.shard.start_key, b"a".to_vec());
    assert_eq!(r.shard.end_key, b"m".to_vec());
    assert_eq!(r.shard.conf_ver, 4);
    assert_eq!(r.shard.version, 9);
    assert_eq!(r.shard.members, vec![1, 2, 3]);
    assert_eq!(r.shard.views.len(), 3);
}

#[test]
fn one_stale_view_is_auto_fixable() {
    // Nodes 1 and 2 carry epoch (2, 5); node 3 is strictly older.
    let views = vec![
        view(1, 1, "a", "m", 2, 5, vec![1, 2, 3]),
        view(1, 2, "a", "m", 2, 5, vec![1, 2, 3]),
        view(1, 3, "a", "m", 1, 3, vec![1, 2]),
    ];
    let r = resolve(1, views);
    assert_eq!(r.class, HealthClass::AutoFixable);
    assert_eq!(r.shard.conf_ver, 2);
    assert_eq!(r.shard.version, 5);
    assert_eq!(r.shard.members, vec![1, 2, 3]);
}

#[test]
fn maximal_epoch_disagreement_needs_selection() {
    // Both views carry the maximal epoch but disagree on membership.
    let views = vec![
        view(2, 1, "a", "m", 3, 3, vec![1, 2]),
        view(2, 2, "a", "m", 3, 3, vec![1, 2, 9]),
    ];
    let r = resolve(2, views);
    assert_eq!(r.class, HealthClass::NeedsSelect);
}

#[test]
fn incomparable_epochs_need_recomputation() {
    // (2, 1) and (1, 2): each view is newer than the other on one axis.
    let views = vec![
        view(3, 1, "a", "m", 2, 1, vec![1, 2]),
        view(3, 2, "a", "m", 1, 2, vec![1, 2]),
    ];
    let r = resolve(3, views);
    assert_eq!(r.class, HealthClass::NeedsRecompute);
}

#[test]
fn resolution_ignores_view_order() {
    let a = view(5, 1, "a", "m", 2, 5, vec![1, 2, 3]);
    let b = view(5, 2, "a", "m", 2, 5, vec![1, 2, 3]);
    let c = view(5, 3, "a", "m", 1, 3, vec![1, 2]);
    let orders: Vec<Vec<ReplicaView>> = vec![
        vec![a.clone(), b.clone(), c.clone()],
        vec![c.clone(), b.clone(), a.clone()],
        vec![b.clone(), c.clone(), a.clone()],
        vec![c.clone(), a.clone(), b.clone()],
    ];
    let mut results = Vec::new();
    for views in orders {
        let r = resolve(5, views);
        results.push((
            r.class,
            r.shard.start_key.clone(),
            r.shard.end_key.clone(),
            r.shard.conf_ver,
            r.shard.version,
            r.shard.members.clone(),
        ));
    }
    for w in &results[1..] {
        assert_eq!(&results[0], w);
    }
}

#[test]
fn needs_select_resolution_is_still_deterministic() {
    // Two maximal-epoch views disagree; whichever order they arrive in,
    // the resolved record is the same canonical pick.
    let a = view(6, 1, "a", "m", 3, 3, vec![1, 2]);
    let b = view(6, 2, "a", "m", 3, 3, vec![1, 2, 9]);
    let r1 = resolve(6, vec![a.clone(), b.clone()]);
    let r2 = resolve(6, vec![b, a]);
    assert_eq!(r1.class, HealthClass::NeedsSelect);
    assert_eq!(r2.class, HealthClass::NeedsSelect);
    assert_eq!(r1.shard.members, r2.shard.members);
    assert_eq!(r1.shard.start_key, r2.shard.start_key);
}
