//! The data the reconciliation works on: per-node replica views, resolved
//! authoritative shards, and the health grades a shard can receive.

use vstd::prelude::*;

verus! {

/// One node's belief about one shard: its key range `[start_key, end_key)`,
/// its replication epoch `(conf_ver, version)`, and the set of nodes the
/// reporting node believes hold replicas. The empty `end_key` stands for the
/// top of the key space.
#[derive(Debug, Clone, PartialEq, Eq)]
pub struct ReplicaView {
    pub shard_id: u64,
    pub node_id: u64,
    pub start_key: Vec<u8>,
    pub end_key: Vec<u8>,
    pub conf_ver: u64,
    pub version: u64,
    pub members: Vec<u64>,
}

/// The mathematical value of a [`ReplicaView`].
#[verifier::ext_equal]
pub ghost struct ViewModel {
    pub shard_id: u64,
    pub node_id: u64,
    pub start_key: Seq<u8>,
    pub end_key: Seq<u8>,
    pub conf_ver: u64,
    pub version: u64,
    pub members: Seq<u64>,
}

impl View for ReplicaView {
    type V = ViewModel;

    open spec fn view(&self) -> ViewModel {
        ViewModel {
            shard_id: self.shard_id,
            node_id: self.node_id,
            start_key: self.start_key@,
            end_key: self.end_key@,
            conf_ver: self.conf_ver,
            version: self.version,
            members: self.members@,
        }
    }
}

/// The models of a sequence of replica views.
pub open spec fn models(s: Seq<ReplicaView>) -> Seq<ViewModel> {
    s.map_values(|v: ReplicaView| v@)
}

/// A membership record is kept strictly sorted: that makes it a set and
/// gives every derived output one reproducible order.
pub open spec fn members_wf(m: Seq<u64>) -> bool {
    forall|i: int, j: int| 0 <= i < j < m.len() ==> #[trigger] m[i] < #[trigger] m[j]
}

/// A well-formed view carries a strictly sorted membership record.
pub open spec fn view_wf(v: ViewModel) -> bool {
    members_wf(v.members)
}

/// Two views carry the same epoch.
pub open spec fn same_epoch(a: ViewModel, b: ViewModel) -> bool {
    a.conf_ver == b.conf_ver && a.version == b.version
}

/// Two views describe the same range and membership.
pub open spec fn same_data(a: ViewModel, b: ViewModel) -> bool {
    a.start_key == b.start_key && a.end_key == b.end_key && a.members == b.members
}

/// How a shard's replica views relate to its resolved record.
///
/// `Healthy`: every view equals the resolved record. `NeedsRecompute`: some
/// view's epoch is incomparable with the resolved epoch, so the resolution
/// itself may be stale. `NeedsSelect`: several views carry the maximal epoch
/// but disagree on range or membership. `AutoFixable`: exactly the views with
/// the maximal epoch agree, and every other view is strictly older.
#[derive(Clone, Copy, Debug, PartialEq, Eq, Structural)]
pub enum HealthClass {
    Healthy,
    NeedsRecompute,
    NeedsSelect,
    AutoFixable,
}

/// The resolved truth for one shard: the views it was resolved from, kept
/// for audit, and the resolved range, epoch and membership.
#[derive(Debug, PartialEq, Eq)]
pub struct AuthoritativeShard {
    pub id: u64,
    pub views: Vec<ReplicaView>,
    pub start_key: Vec<u8>,
    pub end_key: Vec<u8>,
    pub conf_ver: u64,
    pub version: u64,
    pub members: Vec<u64>,
}

/// The mathematical value of an [`AuthoritativeShard`].
#[verifier::ext_equal]
pub ghost struct ShardModel {
    pub id: u64,
    pub views: Seq<ViewModel>,
    pub start_key: Seq<u8>,
    pub end_key: Seq<u8>,
    pub conf_ver: u64,
    pub version: u64,
    pub members: Seq<u64>,
}

impl View for AuthoritativeShard {
    type V = ShardModel;

    open spec fn view(&self) -> ShardModel {
        ShardModel {
            id: self.id,
            views: models(self.views@),
            start_key: self.start_key@,
            end_key: self.end_key@,
            conf_ver: self.conf_ver,
            version: self.version,
            members: self.members@,
        }
    }
}

/// A resolved shard together with its health grade.
#[derive(Debug, PartialEq, Eq)]
pub struct ResolvedShard {
    pub shard: AuthoritativeShard,
    pub class: HealthClass,
}

/// Copies a key.
pub fn clone_key(v: &Vec<u8>) -> (r: Vec<u8>)
    ensures
        r@ == v@,
{
    let mut r: Vec<u8> = Vec::new();
    let mut i: usize = 0;
    while i < v.len()
        invariant
            i <= v@.len(),
            r@ == v@.take(i as int),
        decreases v@.len() - i,
    {
        r.push(v[i]);
        proof {
            assert(v@.take(i as int).push(v@[i as int]) =~= v@.take(i as int + 1));
        }
        i = i + 1;
    }
    proof {
        assert(v@.take(v@.len() as int) =~= v@);
    }
    r
}

/// Copies a membership record.
pub fn clone_members(v: &Vec<u64>) -> (r: Vec<u64>)
    ensures
        r@ == v@,
{
    let mut r: Vec<u64> = Vec::new();
    let mut i: usize = 0;
    while i < v.len()
        invariant
            i <= v@.len(),
            r@ == v@.take(i as int),
        decreases v@.len() - i,
    {
        r.push(v[i]);
        proof {
            assert(v@.take(i as int).push(v@[i as int]) =~= v@.take(i as int + 1));
        }
        i = i + 1;
    }
    proof {
        assert(v@.take(v@.len() as int) =~= v@);
    }
    r
}

/// Copies a replica view.
pub fn clone_view(v: &ReplicaView) -> (r: ReplicaView)
    ensures
        r@ == v@,
{
    ReplicaView {
        shard_id: v.shard_id,
        node_id: v.node_id,
        start_key: clone_key(&v.start_key),
        end_key: clone_key(&v.end_key),
        conf_ver: v.conf_ver,
        version: v.version,
        members: clone_members(&v.members),
    }
}

/// Checks that a membership record is strictly sorted.
pub fn members_sorted(m: &Vec<u64>) -> (r: bool)
    ensures
        r == members_wf(m@),
{
    let mut i: usize = 0;
    if m.len() == 0 {
        return true;
    }
    while i < m.len() - 1
        invariant
            m@.len() > 0,
            i < m@.len(),
            forall|a: int, b: int| 0 <= a < b <= i ==> #[trigger] m@[a] < #[trigger] m@[b],
        decreases m@.len() - i,
    {
        if m[i] >= m[i + 1] {
            return false;
        }
        proof {
            assert(forall|a: int, b: int| 0 <= a < b <= i + 1 ==> #[trigger] m@[a] < #[trigger] m@[b]);
        }
        i = i + 1;
    }
    true
}

} // verus!
