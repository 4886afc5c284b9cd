use shard_reconcile::continuity::{check_continuity, ContinuityIssue};
use shard_reconcile::model::{AuthoritativeShard, HealthClass, ResolvedShard};
use shard_reconcile::sorting::sort_resolved_by_start;

fn shard(id: u64, start: &str, end: &str) -> ResolvedShard {
    ResolvedShard {
        shard: AuthoritativeShard {
            id,
            views: Vec::new(),
            start_key: start.as_bytes().to_vec(),
            end_key: end.as_bytes().to_vec(),
            conf_ver: 1,
            version: 1,
            members: vec![1],
        },
        class: HealthClass::Healthy,
    }
}

#[test]
fn exact_partition_has_no_issues() {
    let shards = vec![shard(1, "", "b"), shard(2, "b", "d"), shard(3, "d", "")];
    let issues = check_continuity(&shards);
    assert!(issues.is_empty());
}

#[test]
fn empty_input_has_no_issues() {
    let shards: Vec<ResolvedShard> = Vec::new();
    let issues = check_continuity(&shards);
    assert!(issues.is_empty());
}

#[test]
fn gap_is_reported_once() {
    let shards = vec![shard(1, "", "b"), shard(2, "c", "")];
    let issues = check_continuity(&shards);
    assert_eq!(issues.len(), 1);
    assert_eq!(
        issues[0],
        ContinuityIssue::Gap { from: b"b".to_vec(), to: b"c".to_vec() }
    );
}

#[test]
fn overlap_is_reported_once() {
    let shards = vec![shard(1, "", "c"), shard(2, "b", "")];
    let issues = check_continuity(&shards);
    assert_eq!(issues.len(), 1);
    assert_eq!(
        issues[0],
        ContinuityIssue::Overlap { at: b"b".to_vec(), prev_end: b"c".to_vec() }
    );
}

#[test]
fn missing_top_of_key_space_is_a_trailing_gap() {
    let shards = vec![shard(1, "", "m")];
    let issues = check_continuity(&shards);
    assert_eq!(issues.len(), 1);
    assert_eq!(
        issues[0],
        ContinuityIssue::Gap { from: b"m".to_vec(), to: Vec::new() }
    );
}

#[test]
fn gap_at_the_bottom_is_reported() {
    let shards = vec![shard(1, "d", "")];
    let issues = check_continuity(&shards);
    assert_eq!(issues.len(), 1);
    assert_eq!(
        issues[0],
        ContinuityIssue::Gap { from: Vec::new(), to: b"d".to_vec() }
    );
}

#[test]
fn sorting_orders_shards_by_start_key() {
    let shards = vec![shard(3, "d", ""), shard(1, "", "b"), shard(2, "b", "d")];
    let sorted = sort_resolved_by_start(shards);
    let starts: Vec<Vec<u8>> = sorted.iter().map(|r| r.shard.start_key.clone()).collect();
    assert_eq!(starts, vec![b"".to_vec(), b"b".to_vec(), b"d".to_vec()]);
    let issues = check_continuity(&sorted);
    assert!(issues.is_empty());
}
