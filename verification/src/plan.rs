//! The repair plan synthesizer: turns the auto-fixable shards into a
//! per-node set of corrective actions. A node whose replica carries a stale
//! epoch is told to discard it (a tombstone); a node whose replica is
//! authoritative but still lists a member that no longer holds the
//! authoritative epoch is told to trim that member. A shard whose keeper
//! views contradict the keeper set itself is internally inconsistent: it is
//! excluded from the plan and flagged, never adjusted.

use vstd::prelude::*;
use crate::model::{
    members_wf, view_wf, AuthoritativeShard, HealthClass, ReplicaView, ResolvedShard, ShardModel,
    ViewModel,
};

verus! {

/// For one node: the shards whose replica it must discard, and for each
/// shard it keeps, the members it must drop from the replica's membership
/// record. Both lists are strictly sorted by shard, then member.
#[derive(Debug, Clone, PartialEq, Eq)]
pub struct NodeRepairPlan {
    pub node_id: u64,
    pub tombstones: Vec<u64>,
    pub trims: Vec<TrimEntry>,
}

/// The stale members a node must drop from its replica of one shard.
#[derive(Debug, Clone, PartialEq, Eq)]
pub struct TrimEntry {
    pub shard_id: u64,
    pub members: Vec<u64>,
}

/// The whole repair plan: one entry per node that has anything to repair,
/// sorted by node, and the shards excluded as internally inconsistent.
#[derive(Debug, Clone, PartialEq, Eq)]
pub struct RepairPlan {
    pub plans: Vec<NodeRepairPlan>,
    pub inconsistent: Vec<u64>,
}

/// The mathematical value of a [`TrimEntry`].
#[verifier::ext_equal]
pub ghost struct TrimModel {
    pub shard_id: u64,
    pub members: Seq<u64>,
}

/// The mathematical value of a [`NodeRepairPlan`].
#[verifier::ext_equal]
pub ghost struct PlanModel {
    pub node_id: u64,
    pub tombstones: Seq<u64>,
    pub trims: Seq<TrimModel>,
}

impl View for TrimEntry {
    type V = TrimModel;

    open spec fn view(&self) -> TrimModel {
        TrimModel { shard_id: self.shard_id, members: self.members@ }
    }
}

impl View for NodeRepairPlan {
    type V = PlanModel;

    open spec fn view(&self) -> PlanModel {
        PlanModel {
            node_id: self.node_id,
            tombstones: self.tombstones@,
            trims: self.trims@.map_values(|t: TrimEntry| t@),
        }
    }
}

/// The models of a sequence of node plans.
pub open spec fn plan_models(s: Seq<NodeRepairPlan>) -> Seq<PlanModel> {
    s.map_values(|p: NodeRepairPlan| p@)
}

/// The view's epoch equals the shard's resolved epoch.
pub open spec fn view_epoch_matches(s: ShardModel, v: ViewModel) -> bool {
    v.conf_ver == s.conf_ver && v.version == s.version
}

/// The nodes whose view carries the resolved epoch: their replicas stay.
pub open spec fn keeper_nodes(s: ShardModel) -> Set<u64> {
    Set::new(
        |n: u64|
            exists|i: int|
                #![trigger s.views[i]]
                0 <= i < s.views.len() && s.views[i].node_id == n && view_epoch_matches(
                    s,
                    s.views[i],
                ),
    )
}

/// The nodes whose view carries another epoch: their replicas are stale.
pub open spec fn tomb_nodes(s: ShardModel) -> Set<u64> {
    Set::new(
        |n: u64|
            exists|i: int|
                #![trigger s.views[i]]
                0 <= i < s.views.len() && s.views[i].node_id == n && !view_epoch_matches(
                    s,
                    s.views[i],
                ),
    )
}

/// The members node `n`'s keeper view still lists although they are not
/// keepers: exactly what `n` must trim.
pub open spec fn trim_members(s: ShardModel, n: u64) -> Set<u64> {
    Set::new(
        |m: u64|
            exists|i: int|
                #![trigger s.views[i]]
                0 <= i < s.views.len() && s.views[i].node_id == n && view_epoch_matches(
                    s,
                    s.views[i],
                ) && s.views[i].members.contains(m) && !keeper_nodes(s).contains(m),
    )
}

/// After trimming, every keeper view's membership must shrink to exactly
/// the keeper set; that holds iff every keeper view lists all keepers.
pub open spec fn shard_consistent(s: ShardModel) -> bool {
    forall|i: int|
        #![trigger s.views[i]]
        0 <= i < s.views.len() && view_epoch_matches(s, s.views[i]) ==> (forall|n: u64|
            keeper_nodes(s).contains(n) ==> #[trigger] s.views[i].members.contains(n))
}

/// A shard the synthesizer acts on: auto-fixable and internally consistent.
pub open spec fn shard_active(r: ResolvedShard) -> bool {
    r.class == HealthClass::AutoFixable && shard_consistent(r.shard@)
}

/// Node `n`'s plan orders shard `t` discarded.
pub open spec fn plan_has_tomb(ps: Seq<PlanModel>, n: u64, t: u64) -> bool {
    exists|i: int|
        #![trigger ps[i]]
        0 <= i < ps.len() && ps[i].node_id == n && ps[i].tombstones.contains(t)
}

/// Node `n`'s plan orders member `m` trimmed from its replica of shard `t`.
pub open spec fn plan_has_trim(ps: Seq<PlanModel>, n: u64, t: u64, m: u64) -> bool {
    exists|i: int, j: int|
        #![trigger ps[i].trims[j]]
        0 <= i < ps.len() && ps[i].node_id == n && 0 <= j < ps[i].trims.len()
            && ps[i].trims[j].shard_id == t && ps[i].trims[j].members.contains(m)
}

/// One node's plan is internally ordered and never empty.
pub open spec fn plan_wf(p: PlanModel) -> bool {
    &&& members_wf(p.tombstones)
    &&& forall|a: int, b: int|
        0 <= a < b < p.trims.len() ==> #[trigger] p.trims[a].shard_id < #[trigger] p.trims[b].shard_id
    &&& forall|a: int|
        0 <= a < p.trims.len() ==> members_wf(#[trigger] p.trims[a].members)
            && p.trims[a].members.len() > 0
    &&& p.tombstones.len() + p.trims.len() > 0
}

/// The plan list is sorted by node, and every node plan is well formed.
pub open spec fn plans_wf(ps: Seq<PlanModel>) -> bool {
    &&& forall|i: int, j: int|
        0 <= i < j < ps.len() ==> #[trigger] ps[i].node_id < #[trigger] ps[j].node_id
    &&& forall|i: int| 0 <= i < ps.len() ==> plan_wf(#[trigger] ps[i])
}

/// What the synthesizer promises of its plan list: it is well formed, and
/// it orders exactly the discards and trims that the active shards call
/// for — a tombstone on node `n` for shard `t` iff some active input shard
/// has identifier `t` and `n` among its stale-replica nodes, and a trim of
/// member `m` on node `n` for shard `t` iff some active input shard has
/// identifier `t` and `m` among the stale members of `n`'s keeper view.
pub open spec fn is_plan_for(rs: Seq<ResolvedShard>, ps: Seq<PlanModel>) -> bool {
    &&& plans_wf(ps)
    &&& forall|n: u64, t: u64|
        #[trigger] plan_has_tomb(ps, n, t) <==> exists|i: int|
            #![trigger rs[i]]
            0 <= i < rs.len() && rs[i].shard@.id == t && shard_active(rs[i]) && tomb_nodes(
                rs[i].shard@,
            ).contains(n)
    &&& forall|n: u64, t: u64, m: u64|
        #[trigger] plan_has_trim(ps, n, t, m) <==> exists|i: int|
            #![trigger rs[i]]
            0 <= i < rs.len() && rs[i].shard@.id == t && shard_active(rs[i]) && trim_members(
                rs[i].shard@,
                n,
            ).contains(m)
}

/// The shards a plan may not include: graded auto-fixable, yet with a
/// keeper view that does not list every keeper.
pub open spec fn flagged_inconsistent(rs: Seq<ResolvedShard>) -> Seq<u64> {
    rs.filter(
        |r: ResolvedShard| r.class == HealthClass::AutoFixable && !shard_consistent(r.shard@),
    ).map_values(|r: ResolvedShard| r.shard@.id)
}

/// Looks an identifier up in a list.
pub fn contains_u64(v: &Vec<u64>, x: u64) -> (r: bool)
    ensures
        r == v@.contains(x),
{
    let mut i: usize = 0;
    while i < v.len()
        invariant
            i <= v@.len(),
            forall|k: int| 0 <= k < i ==> v@[k] != x,
        decreases v@.len() - i,
    {
        if v[i] == x {
            proof {
                assert(v@.contains(x)) by {
                    assert(v@[i as int] == x);
                }
            }
            return true;
        }
        i = i + 1;
    }
    false
}

/// Every identifier of `sub` occurs in `sup`.
pub fn vec_subset(sub: &Vec<u64>, sup: &Vec<u64>) -> (r: bool)
    ensures
        r == (forall|x: u64| sub@.contains(x) ==> sup@.contains(x)),
{
    let mut i: usize = 0;
    while i < sub.len()
        invariant
            i <= sub@.len(),
            forall|k: int| 0 <= k < i ==> sup@.contains(#[trigger] sub@[k]),
        decreases sub@.len() - i,
    {
        if !contains_u64(sup, sub[i]) {
            proof {
                assert(sub@.contains(sub@[i as int])) by {
                    assert(sub@[i as int] == sub@[i as int]);
                }
            }
            return false;
        }
        i = i + 1;
    }
    proof {
        assert forall|x: u64| sub@.contains(x) implies sup@.contains(x) by {
            let k = choose|k: int| 0 <= k < sub@.len() && sub@[k] == x;
            assert(sup@.contains(sub@[k]));
        }
    }
    true
}

/// Collects the keeper nodes of a shard: those whose view carries the
/// resolved epoch.
fn collect_keepers(shard: &AuthoritativeShard) -> (r: Vec<u64>)
    ensures
        forall|n: u64| r@.contains(n) <==> keeper_nodes(shard@).contains(n),
{
    broadcast use vstd::seq_lib::lemma_seq_contains_after_push;

    let ghost s = shard@;
    let mut r: Vec<u64> = Vec::new();
    let mut i: usize = 0;
    while i < shard.views.len()
        invariant
            i <= shard.views@.len(),
            s == shard@,
            s.views.len() == shard.views@.len(),
            forall|k: int| 0 <= k < s.views.len() ==> #[trigger] s.views[k] == shard.views@[k]@,
            forall|n: u64|
                r@.contains(n) <==> exists|k: int|
                    #![trigger s.views[k]]
                    0 <= k < i && s.views[k].node_id == n && view_epoch_matches(s, s.views[k]),
        decreases shard.views@.len() - i,
    {
        let v = &shard.views[i];
        let ghost prev = r@;
        let matched = v.conf_ver == shard.conf_ver && v.version == shard.version;
        proof {
            assert(s.views[i as int] == shard.views@[i as int]@);
            assert(matched == view_epoch_matches(s, s.views[i as int]));
        }
        if matched {
            r.push(v.node_id);
        }
        proof {
            assert forall|n: u64| r@.contains(n) implies (exists|k: int|
                #![trigger s.views[k]]
                0 <= k < i + 1 && s.views[k].node_id == n && view_epoch_matches(
                    s,
                    s.views[k],
                )) by {
                if matched {
                    vstd::seq_lib::lemma_seq_contains_after_push(
                        prev,
                        s.views[i as int].node_id,
                        n,
                    );
                }
                if prev.contains(n) {
                    let k = choose|k: int|
                        #![trigger s.views[k]]
                        0 <= k < i && s.views[k].node_id == n && view_epoch_matches(s, s.views[k]);
                    assert(0 <= k < i + 1 && s.views[k].node_id == n);
                } else {
                    assert(matched && n == s.views[i as int].node_id);
                }
            }
            assert forall|n: u64| (exists|k: int|
                #![trigger s.views[k]]
                0 <= k < i + 1 && s.views[k].node_id == n && view_epoch_matches(
                    s,
                    s.views[k],
                )) implies r@.contains(n) by {
                let k = choose|k: int|
                    #![trigger s.views[k]]
                    0 <= k < i + 1 && s.views[k].node_id == n && view_epoch_matches(s, s.views[k]);
                if k < i {
                    assert(prev.contains(n));
                    if matched {
                        vstd::seq_lib::lemma_seq_contains_after_push(
                            prev,
                            s.views[i as int].node_id,
                            n,
                        );
                        assert(r@ == prev.push(s.views[i as int].node_id));
                    }
                } else {
                    assert(matched);
                    assert(r@ == prev.push(n));
                    vstd::seq_lib::lemma_seq_contains_after_push(prev, n, n);
                }
            }
        }
        i = i + 1;
    }
    r
}

/// The members of a keeper view that are not keepers, in the view's own
/// strictly sorted order.
fn stale_members(view: &ReplicaView, keepers: &Vec<u64>) -> (st: Vec<u64>)
    requires
        members_wf(view@.members),
    ensures
        forall|m: u64| st@.contains(m) <==> view@.members.contains(m) && !keepers@.contains(m),
        members_wf(st@),
    decreases view@.members.len(),
{
    broadcast use vstd::seq_lib::lemma_seq_contains_after_push;

    let mut st: Vec<u64> = Vec::new();
    let mut j: usize = 0;
    while j < view.members.len()
        invariant
            j <= view.members@.len(),
            members_wf(view@.members),
            forall|m: u64|
                st@.contains(m) <==> (exists|a: int|
                    0 <= a < j && view@.members[a] == m) && !keepers@.contains(m),
            forall|a: int|
                0 <= a < st@.len() ==> exists|b: int| 0 <= b < j && #[trigger] st@[a]
                    == view@.members[b],
            members_wf(st@),
        decreases view.members@.len() - j,
    {
        let m = view.members[j];
        let ghost prev = st@;
        let kept = contains_u64(keepers, m);
        if !kept {
            proof {
                assert forall|a: int| 0 <= a < st@.len() implies st@[a] < m by {
                    let b = choose|b: int| 0 <= b < j && st@[a] == view@.members[b];
                    assert(view@.members[b] < view@.members[j as int]);
                }
            }
            st.push(m);
            proof {
                assert(st@[st@.len() - 1] == view@.members[j as int]);
            }
        }
        proof {
            assert forall|x: u64| st@.contains(x) implies ((exists|a: int|
                0 <= a < j + 1 && view@.members[a] == x) && !keepers@.contains(x)) by {
                if !kept {
                    vstd::seq_lib::lemma_seq_contains_after_push(prev, m, x);
                }
                if prev.contains(x) {
                    let a = choose|a: int| 0 <= a < j && view@.members[a] == x;
                    assert(0 <= a < j + 1 && view@.members[a] == x);
                } else {
                    assert(!kept && x == m);
                    assert(view@.members[j as int] == x);
                }
            }
            assert forall|x: u64| ((exists|a: int| 0 <= a < j + 1 && view@.members[a] == x)
                && !keepers@.contains(x)) implies st@.contains(x) by {
                let a = choose|a: int| 0 <= a < j + 1 && view@.members[a] == x;
                if a < j {
                    assert(prev.contains(x));
                    if !kept {
                        vstd::seq_lib::lemma_seq_contains_after_push(prev, m, x);
                        assert(st@ == prev.push(m));
                    }
                } else {
                    assert(x == m && !kept);
                    vstd::seq_lib::lemma_seq_contains_after_push(prev, m, x);
                    assert(st@ == prev.push(m));
                }
            }
        }
        j = j + 1;
    }
    proof {
        assert forall|m: u64| st@.contains(m) <==> view@.members.contains(m) && !keepers@.contains(
            m,
        ) by {
            if view@.members.contains(m) {
                let a = choose|a: int| 0 <= a < view@.members.len() && view@.members[a] == m;
                assert(0 <= a < j && view@.members[a] == m);
            }
        }
    }
    st
}


/// Inserting into a sequence adds exactly the inserted element.
proof fn lemma_seq_insert_contains<T>(s: Seq<T>, p: int, x: T)
    requires
        0 <= p <= s.len(),
    ensures
        forall|y: T| s.insert(p, x).contains(y) <==> s.contains(y) || y == x,
{
    s.insert_ensures(p, x);
    let s2 = s.insert(p, x);
    assert forall|y: T| s2.contains(y) implies s.contains(y) || y == x by {
        let i = choose|i: int| 0 <= i < s2.len() && s2[i] == y;
        if i < p {
            assert(s2[i] == s[i]);
            assert(s.contains(y)) by {
                assert(s[i] == y);
            }
        } else if i > p {
            assert(s2[(i - 1) + 1] == s[i - 1]);
            assert(s.contains(y)) by {
                assert(s[i - 1] == y);
            }
        }
    }
    assert forall|y: T| s.contains(y) || y == x implies s2.contains(y) by {
        if s.contains(y) {
            let i = choose|i: int| 0 <= i < s.len() && s[i] == y;
            if i < p {
                assert(s2[i] == s[i]);
                assert(s2.contains(y)) by {
                    assert(s2[i] == y);
                }
            } else {
                assert(s2[i + 1] == s[i]);
                assert(s2.contains(y)) by {
                    assert(s2[i + 1] == y);
                }
            }
        } else {
            assert(s2[p] == x);
            assert(s2.contains(y)) by {
                assert(s2[p] == y);
            }
        }
    }
}

/// Adds one tombstone to `node`'s plan, keeping the plan list sorted.
fn add_tombstone(plans: &mut Vec<NodeRepairPlan>, node: u64, shard: u64)
    requires
        plans_wf(plan_models(old(plans)@)),
        !plan_has_tomb(plan_models(old(plans)@), node, shard),
    ensures
        plans_wf(plan_models(final(plans)@)),
        forall|n: u64, t: u64|
            #[trigger] plan_has_tomb(plan_models(final(plans)@), n, t) <==> plan_has_tomb(
                plan_models(old(plans)@),
                n,
                t,
            ) || (n == node && t == shard),
        forall|n: u64, t: u64, m: u64|
            #[trigger] plan_has_trim(plan_models(final(plans)@), n, t, m) == plan_has_trim(
                plan_models(old(plans)@),
                n,
                t,
                m,
            ),
{
    let ghost v0 = plans@;
    let ghost pm0 = plan_models(plans@);
    let mut i: usize = 0;
    while i < plans.len() && plans[i].node_id < node
        invariant
            i <= plans@.len(),
            plans@ == v0,
            forall|k: int| 0 <= k < i ==> plan_models(plans@)[k].node_id < node,
        decreases plans@.len() - i,
    {
        i = i + 1;
    }
    let found = i < plans.len() && plans[i].node_id == node;
    proof {
        if !found {
            assert forall|k: int| 0 <= k < pm0.len() implies pm0[k].node_id != node by {
                if k >= i {
                    assert(pm0[i as int].node_id < pm0[k].node_id || k == i);
                }
            }
        }
    }
    if found {
        let mut entry = plans.remove(i);
        let ghost e0 = pm0[i as int];
        proof {
            v0.remove_ensures(i as int);
            assert(!e0.tombstones.contains(shard)) by {
                if e0.tombstones.contains(shard) {
                    assert(plan_has_tomb(pm0, node, shard)) by {
                        assert(pm0[i as int].node_id == node
                            && pm0[i as int].tombstones.contains(shard));
                    }
                }
            }
        }
        let mut p: usize = 0;
        while p < entry.tombstones.len() && entry.tombstones[p] < shard
            invariant
                p <= entry.tombstones@.len(),
                entry@ == e0,
                forall|k: int| 0 <= k < p ==> entry.tombstones@[k] < shard,
            decreases entry.tombstones@.len() - p,
        {
            p = p + 1;
        }
        proof {
            assert(forall|k: int|
                p <= k < e0.tombstones.len() ==> shard < #[trigger] e0.tombstones[k]) by {
                assert forall|k: int|
                    p <= k < e0.tombstones.len() implies shard < e0.tombstones[k] by {
                    if k == p {
                        assert(e0.tombstones[k] >= shard);
                        assert(e0.tombstones[k] != shard) by {
                            if e0.tombstones[k] == shard {
                                assert(e0.tombstones.contains(shard)) by {
                                    assert(e0.tombstones[k] == shard);
                                }
                            }
                        }
                    } else {
                        assert(e0.tombstones[p as int] < e0.tombstones[k]);
                        assert(e0.tombstones[p as int] >= shard);
                        assert(e0.tombstones[p as int] != shard) by {
                            if e0.tombstones[p as int] == shard {
                                assert(e0.tombstones.contains(shard)) by {
                                    assert(e0.tombstones[p as int] == shard);
                                }
                            }
                        }
                    }
                }
            }
        }
        entry.tombstones.insert(p, shard);
        let ghost t1 = e0.tombstones.insert(p as int, shard);
        let ghost e1 = PlanModel { node_id: e0.node_id, tombstones: t1, trims: e0.trims };
        proof {
            assert(entry@ =~= e1);
            e0.tombstones.insert_ensures(p as int, shard);
            lemma_seq_insert_contains(e0.tombstones, p as int, shard);
            assert(members_wf(t1)) by {
                assert forall|a: int, b: int| 0 <= a < b < t1.len() implies t1[a] < t1[b] by {
                    let pi = p as int;
                    if b < pi {
                        assert(t1[a] == e0.tombstones[a] && t1[b] == e0.tombstones[b]);
                    } else if a < pi && b == pi {
                        assert(t1[a] == e0.tombstones[a] && t1[b] == shard);
                    } else if a < pi {
                        assert(t1[a] == e0.tombstones[a]);
                        assert(t1[(b - 1) + 1] == e0.tombstones[b - 1]);
                    } else if a == pi {
                        assert(t1[a] == shard);
                        assert(t1[(b - 1) + 1] == e0.tombstones[b - 1]);
                    } else {
                        assert(t1[(a - 1) + 1] == e0.tombstones[a - 1]);
                        assert(t1[(b - 1) + 1] == e0.tombstones[b - 1]);
                    }
                }
            }
        }
        plans.insert(i, entry);
        proof {
            let pm1 = plan_models(plans@);
            v0.remove(i as int).insert_ensures(i as int, plans@[i as int]);
            assert(pm1 =~= pm0.update(i as int, e1)) by {
                assert(plans@ =~= v0.update(i as int, plans@[i as int]));
            }
            assert(plans_wf(pm1));
            assert forall|n: u64, t: u64| #[trigger] plan_has_tomb(pm1, n, t) implies plan_has_tomb(
                pm0,
                n,
                t,
            ) || (n == node && t == shard) by {
                let k = choose|k: int|
                    #![trigger pm1[k]]
                    0 <= k < pm1.len() && pm1[k].node_id == n && pm1[k].tombstones.contains(t);
                if k != i {
                    assert(pm0[k].node_id == n && pm0[k].tombstones.contains(t));
                } else {
                    if t != shard {
                        assert(pm0[k].node_id == n && pm0[k].tombstones.contains(t));
                    }
                }
            }
            assert forall|n: u64, t: u64|
                plan_has_tomb(pm0, n, t) || (n == node && t == shard) implies #[trigger]
                plan_has_tomb(pm1, n, t) by {
                if plan_has_tomb(pm0, n, t) {
                    let k = choose|k: int|
                        #![trigger pm0[k]]
                        0 <= k < pm0.len() && pm0[k].node_id == n && pm0[k].tombstones.contains(t);
                    if k != i {
                        assert(pm1[k].node_id == n && pm1[k].tombstones.contains(t));
                    } else {
                        assert(n == node);
                        assert(pm1[k].tombstones.contains(t));
                        assert(pm1[k].node_id == n);
                    }
                } else {
                    assert(pm1[i as int].node_id == node && pm1[i as int].tombstones.contains(
                        shard,
                    ));
                }
            }
            assert forall|n: u64, t: u64, m: u64|
                #[trigger] plan_has_trim(pm1, n, t, m) == plan_has_trim(pm0, n, t, m) by {
                assert(forall|k: int| 0 <= k < pm1.len() ==> #[trigger] pm1[k].trims
                    == pm0[k].trims && pm1[k].node_id == pm0[k].node_id);
                if plan_has_trim(pm1, n, t, m) {
                    let (k, j) = choose|k: int, j: int|
                        #![trigger pm1[k].trims[j]]
                        0 <= k < pm1.len() && pm1[k].node_id == n && 0 <= j < pm1[k].trims.len()
                            && pm1[k].trims[j].shard_id == t && pm1[k].trims[j].members.contains(m);
                    assert(pm0[k].trims[j] == pm1[k].trims[j]);
                }
                if plan_has_trim(pm0, n, t, m) {
                    let (k, j) = choose|k: int, j: int|
                        #![trigger pm0[k].trims[j]]
                        0 <= k < pm0.len() && pm0[k].node_id == n && 0 <= j < pm0[k].trims.len()
                            && pm0[k].trims[j].shard_id == t && pm0[k].trims[j].members.contains(m);
                    assert(pm1[k].trims[j] == pm0[k].trims[j]);
                }
            }
        }
    } else {
        let mut tv: Vec<u64> = Vec::new();
        tv.push(shard);
        let entry = NodeRepairPlan { node_id: node, tombstones: tv, trims: Vec::new() };
        let ghost e1 = entry@;
        plans.insert(i, entry);
        proof {
            let pm1 = plan_models(plans@);
            v0.insert_ensures(i as int, plans@[i as int]);
            assert(pm1 =~= pm0.insert(i as int, e1)) by {
                assert(plans@ =~= v0.insert(i as int, plans@[i as int]));
                pm0.insert_ensures(i as int, e1);
            }
            pm0.insert_ensures(i as int, e1);
            assert(e1.tombstones =~= seq![shard]);
            assert(plan_wf(e1));
            assert(forall|k: int|
                i <= k < pm0.len() ==> node < #[trigger] pm0[k].node_id) by {
                assert forall|k: int| i <= k < pm0.len() implies node < pm0[k].node_id by {
                    if k > i {
                        assert(pm0[i as int].node_id < pm0[k].node_id);
                    }
                }
            }
            assert(plans_wf(pm1)) by {
                assert forall|a: int, b: int|
                    0 <= a < b < pm1.len() implies pm1[a].node_id < pm1[b].node_id by {
                    let pi = i as int;
                    if b < pi {
                        assert(pm1[a] == pm0[a] && pm1[b] == pm0[b]);
                    } else if a < pi && b == pi {
                        assert(pm1[a] == pm0[a]);
                    } else if a < pi {
                        assert(pm1[a] == pm0[a] && pm1[(b - 1) + 1] == pm0[b - 1]);
                    } else if a == pi {
                        assert(pm1[(b - 1) + 1] == pm0[b - 1]);
                    } else {
                        assert(pm1[(a - 1) + 1] == pm0[a - 1] && pm1[(b - 1) + 1] == pm0[b - 1]);
                    }
                }
                assert forall|k: int| 0 <= k < pm1.len() implies plan_wf(pm1[k]) by {
                    let pi = i as int;
                    if k < pi {
                        assert(pm1[k] == pm0[k]);
                    } else if k == pi {
                    } else {
                        assert(pm1[(k - 1) + 1] == pm0[k - 1]);
                    }
                }
            }
            lemma_seq_insert_contains(pm0, i as int, e1);
            assert forall|n: u64, t: u64| #[trigger] plan_has_tomb(pm1, n, t) implies plan_has_tomb(
                pm0,
                n,
                t,
            ) || (n == node && t == shard) by {
                let k = choose|k: int|
                    #![trigger pm1[k]]
                    0 <= k < pm1.len() && pm1[k].node_id == n && pm1[k].tombstones.contains(t);
                let pi = i as int;
                if k < pi {
                    assert(pm1[k] == pm0[k]);
                    assert(plan_has_tomb(pm0, n, t)) by {
                        assert(pm0[k].node_id == n && pm0[k].tombstones.contains(t));
                    }
                } else if k == pi {
                    assert(pm1[k] == e1);
                    assert(t == shard) by {
                        let q = choose|q: int|
                            0 <= q < e1.tombstones.len() && e1.tombstones[q] == t;
                    }
                } else {
                    assert(pm1[(k - 1) + 1] == pm0[k - 1]);
                    assert(plan_has_tomb(pm0, n, t)) by {
                        assert(pm0[k - 1].node_id == n && pm0[k - 1].tombstones.contains(t));
                    }
                }
            }
            assert forall|n: u64, t: u64|
                plan_has_tomb(pm0, n, t) || (n == node && t == shard) implies #[trigger]
                plan_has_tomb(pm1, n, t) by {
                let pi = i as int;
                if plan_has_tomb(pm0, n, t) {
                    let k = choose|k: int|
                        #![trigger pm0[k]]
                        0 <= k < pm0.len() && pm0[k].node_id == n && pm0[k].tombstones.contains(t);
                    if k < pi {
                        assert(pm1[k] == pm0[k]);
                        assert(pm1[k].node_id == n && pm1[k].tombstones.contains(t));
                    } else {
                        assert(pm1[k + 1] == pm0[k]);
                        assert(pm1[k + 1].node_id == n && pm1[k + 1].tombstones.contains(t));
                    }
                } else {
                    assert(pm1[pi] == e1);
                    assert(e1.tombstones.contains(shard)) by {
                        assert(e1.tombstones[0] == shard);
                    }
                    assert(pm1[pi].node_id == n && pm1[pi].tombstones.contains(t));
                }
            }
            assert forall|n: u64, t: u64, m: u64|
                #[trigger] plan_has_trim(pm1, n, t, m) == plan_has_trim(pm0, n, t, m) by {
                let pi = i as int;
                if plan_has_trim(pm1, n, t, m) {
                    let (k, j) = choose|k: int, j: int|
                        #![trigger pm1[k].trims[j]]
                        0 <= k < pm1.len() && pm1[k].node_id == n && 0 <= j < pm1[k].trims.len()
                            && pm1[k].trims[j].shard_id == t && pm1[k].trims[j].members.contains(m);
                    if k < pi {
                        assert(pm1[k] == pm0[k]);
                        assert(pm0[k].trims[j].shard_id == t && pm0[k].trims[j].members.contains(
                            m,
                        ));
                    } else if k == pi {
                        assert(pm1[k] == e1);
                        assert(e1.trims.len() == 0);
                    } else {
                        assert(pm1[(k - 1) + 1] == pm0[k - 1]);
                        assert(pm0[k - 1].trims[j].shard_id == t
                            && pm0[k - 1].trims[j].members.contains(m));
                    }
                }
                if plan_has_trim(pm0, n, t, m) {
                    let (k, j) = choose|k: int, j: int|
                        #![trigger pm0[k].trims[j]]
                        0 <= k < pm0.len() && pm0[k].node_id == n && 0 <= j < pm0[k].trims.len()
                            && pm0[k].trims[j].shard_id == t && pm0[k].trims[j].members.contains(m);
                    if k < pi {
                        assert(pm1[k] == pm0[k]);
                        assert(pm1[k].trims[j].shard_id == t && pm1[k].trims[j].members.contains(
                            m,
                        ));
                    } else {
                        assert(pm1[k + 1] == pm0[k]);
                        assert(pm1[k + 1].trims[j].shard_id == t
                            && pm1[k + 1].trims[j].members.contains(m));
                    }
                }
            }
        }
    }
}


/// Adds one trim record (`shard`, `stale`) to `node`'s plan, keeping the
/// plan list sorted.
#[verifier::rlimit(60)]
fn add_trim(plans: &mut Vec<NodeRepairPlan>, node: u64, shard: u64, stale: Vec<u64>)
    requires
        plans_wf(plan_models(old(plans)@)),
        forall|m: u64| !plan_has_trim(plan_models(old(plans)@), node, shard, m),
        stale@.len() > 0,
        members_wf(stale@),
    ensures
        plans_wf(plan_models(final(plans)@)),
        forall|n: u64, t: u64, m: u64|
            #[trigger] plan_has_trim(plan_models(final(plans)@), n, t, m) <==> plan_has_trim(
                plan_models(old(plans)@),
                n,
                t,
                m,
            ) || (n == node && t == shard && stale@.contains(m)),
        forall|n: u64, t: u64|
            #[trigger] plan_has_tomb(plan_models(final(plans)@), n, t) == plan_has_tomb(
                plan_models(old(plans)@),
                n,
                t,
            ),
{
    let ghost v0 = plans@;
    let ghost pm0 = plan_models(plans@);
    let ghost stale0 = stale@;
    let mut i: usize = 0;
    while i < plans.len() && plans[i].node_id < node
        invariant
            i <= plans@.len(),
            plans@ == v0,
            forall|k: int| 0 <= k < i ==> plan_models(plans@)[k].node_id < node,
        decreases plans@.len() - i,
    {
        i = i + 1;
    }
    let found = i < plans.len() && plans[i].node_id == node;
    proof {
        if !found {
            assert forall|k: int| 0 <= k < pm0.len() implies pm0[k].node_id != node by {
                if k >= i {
                    assert(pm0[i as int].node_id < pm0[k].node_id || k == i);
                }
            }
        }
    }
    if found {
        let mut entry = plans.remove(i);
        let ghost e0 = pm0[i as int];
        proof {
            v0.remove_ensures(i as int);
            assert forall|j: int| 0 <= j < e0.trims.len() implies e0.trims[j].shard_id
                != shard by {
                if e0.trims[j].shard_id == shard {
                    let m0 = e0.trims[j].members[0];
                    assert(e0.trims[j].members.contains(m0)) by {
                        assert(e0.trims[j].members[0] == m0);
                    }
                    assert(plan_has_trim(pm0, node, shard, m0)) by {
                        assert(pm0[i as int].node_id == node
                            && pm0[i as int].trims[j].shard_id == shard
                            && pm0[i as int].trims[j].members.contains(m0));
                    }
                }
            }
        }
        let mut p: usize = 0;
        while p < entry.trims.len() && entry.trims[p].shard_id < shard
            invariant
                p <= entry.trims@.len(),
                entry@ == e0,
                forall|k: int| 0 <= k < p ==> entry@.trims[k].shard_id < shard,
            decreases entry.trims@.len() - p,
        {
            p = p + 1;
        }
        proof {
            assert forall|k: int| p <= k < e0.trims.len() implies shard < e0.trims[k].shard_id by {
                if k == p {
                    assert(e0.trims[k].shard_id >= shard);
                } else {
                    assert(e0.trims[p as int].shard_id < e0.trims[k].shard_id);
                    assert(e0.trims[p as int].shard_id >= shard);
                }
            }
        }
        let ghost tv0 = entry.trims@;
        let te = TrimEntry { shard_id: shard, members: stale };
        let ghost tm = te@;
        entry.trims.insert(p, te);
        let ghost tr1 = e0.trims.insert(p as int, tm);
        let ghost e1 = PlanModel { node_id: e0.node_id, tombstones: e0.tombstones, trims: tr1 };
        proof {
            tv0.insert_ensures(p as int, te);
            e0.trims.insert_ensures(p as int, tm);
            assert(entry@.trims =~= tr1) by {
                assert forall|k: int| 0 <= k < tr1.len() implies entry@.trims[k] == tr1[k] by {
                    let pi = p as int;
                    if k < pi {
                        assert(tv0.insert(pi, te)[k] == tv0[k]);
                        assert(e0.trims.insert(pi, tm)[k] == e0.trims[k]);
                    } else if k == pi {
                        assert(tv0.insert(pi, te)[k] == te);
                        assert(e0.trims.insert(pi, tm)[k] == tm);
                    } else {
                        assert(tv0.insert(pi, te)[(k - 1) + 1] == tv0[k - 1]);
                        assert(e0.trims.insert(pi, tm)[(k - 1) + 1] == e0.trims[k - 1]);
                    }
                }
            }
            assert(entry@ =~= e1);
            assert(plan_wf(e1)) by {
                assert forall|a: int, b: int|
                    0 <= a < b < tr1.len() implies tr1[a].shard_id < tr1[b].shard_id by {
                    let pi = p as int;
                    if b < pi {
                        assert(tr1[a] == e0.trims[a] && tr1[b] == e0.trims[b]);
                    } else if a < pi && b == pi {
                        assert(tr1[a] == e0.trims[a] && tr1[b] == tm);
                    } else if a < pi {
                        assert(tr1[a] == e0.trims[a]);
                        assert(tr1[(b - 1) + 1] == e0.trims[b - 1]);
                    } else if a == pi {
                        assert(tr1[a] == tm);
                        assert(tr1[(b - 1) + 1] == e0.trims[b - 1]);
                    } else {
                        assert(tr1[(a - 1) + 1] == e0.trims[a - 1]);
                        assert(tr1[(b - 1) + 1] == e0.trims[b - 1]);
                    }
                }
                assert forall|a: int|
                    0 <= a < tr1.len() implies members_wf(tr1[a].members)
                        && tr1[a].members.len() > 0 by {
                    let pi = p as int;
                    if a < pi {
                        assert(tr1[a] == e0.trims[a]);
                    } else if a == pi {
                        assert(tr1[a] == tm);
                    } else {
                        assert(tr1[(a - 1) + 1] == e0.trims[a - 1]);
                    }
                }
            }
        }
        plans.insert(i, entry);
        proof {
            let pm1 = plan_models(plans@);
            v0.remove(i as int).insert_ensures(i as int, plans@[i as int]);
            assert(pm1 =~= pm0.update(i as int, e1)) by {
                assert(plans@ =~= v0.update(i as int, plans@[i as int]));
            }
            assert(plans_wf(pm1));
            let pi = p as int;
            assert forall|n: u64, t: u64, m: u64|
                #[trigger] plan_has_trim(pm1, n, t, m) implies plan_has_trim(pm0, n, t, m) || (n
                == node && t == shard && stale0.contains(m)) by {
                let (k, j) = choose|k: int, j: int|
                    #![trigger pm1[k].trims[j]]
                    0 <= k < pm1.len() && pm1[k].node_id == n && 0 <= j < pm1[k].trims.len()
                        && pm1[k].trims[j].shard_id == t && pm1[k].trims[j].members.contains(m);
                if k != i {
                    assert(pm0[k] == pm1[k]);
                    assert(pm0[k].node_id == n && pm0[k].trims[j].shard_id == t
                        && pm0[k].trims[j].members.contains(m));
                } else {
                    if j < pi {
                        assert(tr1[j] == e0.trims[j]);
                        assert(pm0[k].node_id == n && pm0[k].trims[j].shard_id == t
                            && pm0[k].trims[j].members.contains(m));
                    } else if j == pi {
                        assert(tr1[j] == tm);
                    } else {
                        assert(tr1[(j - 1) + 1] == e0.trims[j - 1]);
                        assert(pm0[k].node_id == n && pm0[k].trims[j - 1].shard_id == t
                            && pm0[k].trims[j - 1].members.contains(m));
                    }
                }
            }
            assert forall|n: u64, t: u64, m: u64|
                plan_has_trim(pm0, n, t, m) || (n == node && t == shard && stale0.contains(m))
                implies #[trigger] plan_has_trim(pm1, n, t, m) by {
                if plan_has_trim(pm0, n, t, m) {
                    let (k, j) = choose|k: int, j: int|
                        #![trigger pm0[k].trims[j]]
                        0 <= k < pm0.len() && pm0[k].node_id == n && 0 <= j < pm0[k].trims.len()
                            && pm0[k].trims[j].shard_id == t && pm0[k].trims[j].members.contains(m);
                    if k != i {
                        assert(pm1[k] == pm0[k]);
                        assert(pm1[k].node_id == n && pm1[k].trims[j].shard_id == t
                            && pm1[k].trims[j].members.contains(m));
                    } else {
                        if j < pi {
                            assert(tr1[j] == e0.trims[j]);
                            assert(pm1[k].node_id == n && pm1[k].trims[j].shard_id == t
                                && pm1[k].trims[j].members.contains(m));
                        } else {
                            assert(tr1[j + 1] == e0.trims[j]);
                            assert(pm1[k].node_id == n && pm1[k].trims[j + 1].shard_id == t
                                && pm1[k].trims[j + 1].members.contains(m));
                        }
                    }
                } else {
                    assert(tr1[pi] == tm);
                    assert(pm1[i as int].node_id == node && pm1[i as int].trims[pi].shard_id
                        == shard && pm1[i as int].trims[pi].members.contains(m));
                }
            }
            assert forall|n: u64, t: u64|
                #[trigger] plan_has_tomb(pm1, n, t) == plan_has_tomb(pm0, n, t) by {
                assert(forall|k: int| 0 <= k < pm1.len() ==> #[trigger] pm1[k].tombstones
                    == pm0[k].tombstones && pm1[k].node_id == pm0[k].node_id);
                if plan_has_tomb(pm1, n, t) {
                    let k = choose|k: int|
                        #![trigger pm1[k]]
                        0 <= k < pm1.len() && pm1[k].node_id == n && pm1[k].tombstones.contains(t);
                    assert(pm0[k].node_id == n && pm0[k].tombstones.contains(t));
                }
                if plan_has_tomb(pm0, n, t) {
                    let k = choose|k: int|
                        #![trigger pm0[k]]
                        0 <= k < pm0.len() && pm0[k].node_id == n && pm0[k].tombstones.contains(t);
                    assert(pm1[k].node_id == n && pm1[k].tombstones.contains(t));
                }
            }
        }
    } else {
        let te = TrimEntry { shard_id: shard, members: stale };
        let mut tv: Vec<TrimEntry> = Vec::new();
        tv.push(te);
        let entry = NodeRepairPlan { node_id: node, tombstones: Vec::new(), trims: tv };
        let ghost e1 = entry@;
        plans.insert(i, entry);
        proof {
            let pm1 = plan_models(plans@);
            v0.insert_ensures(i as int, plans@[i as int]);
            assert(pm1 =~= pm0.insert(i as int, e1)) by {
                assert(plans@ =~= v0.insert(i as int, plans@[i as int]));
                pm0.insert_ensures(i as int, e1);
            }
            pm0.insert_ensures(i as int, e1);
            assert(e1.trims.len() == 1);
            assert(e1.trims[0] == TrimModel { shard_id: shard, members: stale0 });
            assert(plan_wf(e1));
            assert(forall|k: int| i <= k < pm0.len() ==> node < #[trigger] pm0[k].node_id) by {
                assert forall|k: int| i <= k < pm0.len() implies node < pm0[k].node_id by {
                    if k > i {
                        assert(pm0[i as int].node_id < pm0[k].node_id);
                    }
                }
            }
            assert(plans_wf(pm1)) by {
                assert forall|a: int, b: int|
                    0 <= a < b < pm1.len() implies pm1[a].node_id < pm1[b].node_id by {
                    let pi = i as int;
                    if b < pi {
                        assert(pm1[a] == pm0[a] && pm1[b] == pm0[b]);
                    } else if a < pi && b == pi {
                        assert(pm1[a] == pm0[a]);
                    } else if a < pi {
                        assert(pm1[a] == pm0[a] && pm1[(b - 1) + 1] == pm0[b - 1]);
                    } else if a == pi {
                        assert(pm1[(b - 1) + 1] == pm0[b - 1]);
                    } else {
                        assert(pm1[(a - 1) + 1] == pm0[a - 1] && pm1[(b - 1) + 1] == pm0[b - 1]);
                    }
                }
                assert forall|k: int| 0 <= k < pm1.len() implies plan_wf(pm1[k]) by {
                    let pi = i as int;
                    if k < pi {
                        assert(pm1[k] == pm0[k]);
                    } else if k == pi {
                    } else {
                        assert(pm1[(k - 1) + 1] == pm0[k - 1]);
                    }
                }
            }
            let pi = i as int;
            assert forall|n: u64, t: u64, m: u64|
                #[trigger] plan_has_trim(pm1, n, t, m) implies plan_has_trim(pm0, n, t, m) || (n
                == node && t == shard && stale0.contains(m)) by {
                let (k, j) = choose|k: int, j: int|
                    #![trigger pm1[k].trims[j]]
                    0 <= k < pm1.len() && pm1[k].node_id == n && 0 <= j < pm1[k].trims.len()
                        && pm1[k].trims[j].shard_id == t && pm1[k].trims[j].members.contains(m);
                if k < pi {
                    assert(pm1[k] == pm0[k]);
                    assert(pm0[k].node_id == n && pm0[k].trims[j].shard_id == t
                        && pm0[k].trims[j].members.contains(m));
                } else if k == pi {
                    assert(pm1[k] == e1);
                } else {
                    assert(pm1[(k - 1) + 1] == pm0[k - 1]);
                    assert(pm0[k - 1].node_id == n && pm0[k - 1].trims[j].shard_id == t
                        && pm0[k - 1].trims[j].members.contains(m));
                }
            }
            assert forall|n: u64, t: u64, m: u64|
                plan_has_trim(pm0, n, t, m) || (n == node && t == shard && stale0.contains(m))
                implies #[trigger] plan_has_trim(pm1, n, t, m) by {
                if plan_has_trim(pm0, n, t, m) {
                    let (k, j) = choose|k: int, j: int|
                        #![trigger pm0[k].trims[j]]
                        0 <= k < pm0.len() && pm0[k].node_id == n && 0 <= j < pm0[k].trims.len()
                            && pm0[k].trims[j].shard_id == t && pm0[k].trims[j].members.contains(m);
                    if k < pi {
                        assert(pm1[k] == pm0[k]);
                        assert(pm1[k].node_id == n && pm1[k].trims[j].shard_id == t
                            && pm1[k].trims[j].members.contains(m));
                    } else {
                        assert(pm1[k + 1] == pm0[k]);
                        assert(pm1[k + 1].node_id == n && pm1[k + 1].trims[j].shard_id == t
                            && pm1[k + 1].trims[j].members.contains(m));
                    }
                } else {
                    assert(pm1[pi] == e1);
                    assert(pm1[pi].node_id == node && pm1[pi].trims[0].shard_id == shard
                        && pm1[pi].trims[0].members.contains(m));
                }
            }
            assert forall|n: u64, t: u64|
                #[trigger] plan_has_tomb(pm1, n, t) == plan_has_tomb(pm0, n, t) by {
                if plan_has_tomb(pm1, n, t) {
                    let k = choose|k: int|
                        #![trigger pm1[k]]
                        0 <= k < pm1.len() && pm1[k].node_id == n && pm1[k].tombstones.contains(t);
                    if k < pi {
                        assert(pm1[k] == pm0[k]);
                        assert(pm0[k].node_id == n && pm0[k].tombstones.contains(t));
                    } else if k == pi {
                        assert(pm1[k] == e1);
                        assert(e1.tombstones.len() == 0);
                    } else {
                        assert(pm1[(k - 1) + 1] == pm0[k - 1]);
                        assert(pm0[k - 1].node_id == n && pm0[k - 1].tombstones.contains(t));
                    }
                }
                if plan_has_tomb(pm0, n, t) {
                    let k = choose|k: int|
                        #![trigger pm0[k]]
                        0 <= k < pm0.len() && pm0[k].node_id == n && pm0[k].tombstones.contains(t);
                    if k < pi {
                        assert(pm1[k] == pm0[k]);
                        assert(pm1[k].node_id == n && pm1[k].tombstones.contains(t));
                    } else {
                        assert(pm1[k + 1] == pm0[k]);
                        assert(pm1[k + 1].node_id == n && pm1[k + 1].tombstones.contains(t));
                    }
                }
            }
        }
    }
}


/// Among the first `upto` views of `s`: node `n` reports a stale replica.
pub open spec fn tomb_prefix(s: ShardModel, upto: int, n: u64) -> bool {
    exists|k: int|
        #![trigger s.views[k]]
        0 <= k < upto && s.views[k].node_id == n && !view_epoch_matches(s, s.views[k])
}

/// Among the first `upto` views of `s`: node `n`'s keeper view lists the
/// stale member `m`.
pub open spec fn trim_prefix(s: ShardModel, upto: int, n: u64, m: u64) -> bool {
    exists|k: int|
        #![trigger s.views[k]]
        0 <= k < upto && s.views[k].node_id == n && view_epoch_matches(s, s.views[k])
            && s.views[k].members.contains(m) && !keeper_nodes(s).contains(m)
}

/// Among the first `upto` input shards: shard `t` is active and orders a
/// tombstone on node `n`.
pub open spec fn tomb_upto(rs: Seq<ResolvedShard>, upto: int, n: u64, t: u64) -> bool {
    exists|i: int|
        #![trigger rs[i]]
        0 <= i < upto && rs[i].shard@.id == t && shard_active(rs[i]) && tomb_nodes(
            rs[i].shard@,
        ).contains(n)
}

/// Among the first `upto` input shards: shard `t` is active and orders the
/// trim of member `m` on node `n`.
pub open spec fn trim_upto(rs: Seq<ResolvedShard>, upto: int, n: u64, t: u64, m: u64) -> bool {
    exists|i: int|
        #![trigger rs[i]]
        0 <= i < upto && rs[i].shard@.id == t && shard_active(rs[i]) && trim_members(
            rs[i].shard@,
            n,
        ).contains(m)
}

proof fn lemma_tomb_prefix_step(s: ShardModel, u: int)
    requires
        0 <= u < s.views.len(),
    ensures
        forall|n: u64|
            tomb_prefix(s, u + 1, n) <==> tomb_prefix(s, u, n) || (s.views[u].node_id == n
                && !view_epoch_matches(s, s.views[u])),
{
    assert forall|n: u64|
        tomb_prefix(s, u + 1, n) implies tomb_prefix(s, u, n) || (s.views[u].node_id == n
        && !view_epoch_matches(s, s.views[u])) by {
        let k = choose|k: int|
            #![trigger s.views[k]]
            0 <= k < u + 1 && s.views[k].node_id == n && !view_epoch_matches(s, s.views[k]);
        if k < u {
            assert(tomb_prefix(s, u, n));
        }
    }
}

proof fn lemma_trim_prefix_step(s: ShardModel, u: int)
    requires
        0 <= u < s.views.len(),
    ensures
        forall|n: u64, m: u64|
            trim_prefix(s, u + 1, n, m) <==> trim_prefix(s, u, n, m) || (s.views[u].node_id == n
                && view_epoch_matches(s, s.views[u]) && s.views[u].members.contains(m)
                && !keeper_nodes(s).contains(m)),
{
    assert forall|n: u64, m: u64|
        trim_prefix(s, u + 1, n, m) implies trim_prefix(s, u, n, m) || (s.views[u].node_id == n
        && view_epoch_matches(s, s.views[u]) && s.views[u].members.contains(m) && !keeper_nodes(
        s,
    ).contains(m)) by {
        let k = choose|k: int|
            #![trigger s.views[k]]
            0 <= k < u + 1 && s.views[k].node_id == n && view_epoch_matches(s, s.views[k])
                && s.views[k].members.contains(m) && !keeper_nodes(s).contains(m);
        if k < u {
            assert(trim_prefix(s, u, n, m));
        }
    }
}

proof fn lemma_tomb_upto_step(rs: Seq<ResolvedShard>, u: int)
    requires
        0 <= u < rs.len(),
    ensures
        forall|n: u64, t: u64|
            tomb_upto(rs, u + 1, n, t) <==> tomb_upto(rs, u, n, t) || (rs[u].shard@.id == t
                && shard_active(rs[u]) && tomb_nodes(rs[u].shard@).contains(n)),
        forall|n: u64, t: u64, m: u64|
            trim_upto(rs, u + 1, n, t, m) <==> trim_upto(rs, u, n, t, m) || (rs[u].shard@.id == t
                && shard_active(rs[u]) && trim_members(rs[u].shard@, n).contains(m)),
{
    assert forall|n: u64, t: u64|
        tomb_upto(rs, u + 1, n, t) implies tomb_upto(rs, u, n, t) || (rs[u].shard@.id == t
        && shard_active(rs[u]) && tomb_nodes(rs[u].shard@).contains(n)) by {
        let i = choose|i: int|
            #![trigger rs[i]]
            0 <= i < u + 1 && rs[i].shard@.id == t && shard_active(rs[i]) && tomb_nodes(
                rs[i].shard@,
            ).contains(n);
        if i < u {
            assert(tomb_upto(rs, u, n, t));
        }
    }
    assert forall|n: u64, t: u64, m: u64|
        trim_upto(rs, u + 1, n, t, m) implies trim_upto(rs, u, n, t, m) || (rs[u].shard@.id == t
        && shard_active(rs[u]) && trim_members(rs[u].shard@, n).contains(m)) by {
        let i = choose|i: int|
            #![trigger rs[i]]
            0 <= i < u + 1 && rs[i].shard@.id == t && shard_active(rs[i]) && trim_members(
                rs[i].shard@,
                n,
            ).contains(m);
        if i < u {
            assert(trim_upto(rs, u, n, t, m));
        }
    }
}

/// A resolved shard's views are acceptable input to the synthesizer: one
/// view per node and strictly sorted membership records.
pub open spec fn shard_input_wf(r: ResolvedShard) -> bool {
    &&& forall|a: int, b: int|
        0 <= a < b < r.shard@.views.len() ==> (#[trigger] r.shard@.views[a]).node_id
            != (#[trigger] r.shard@.views[b]).node_id
    &&& forall|a: int| 0 <= a < r.shard@.views.len() ==> view_wf(#[trigger] r.shard@.views[a])
}

/// Checks the self-audit: every keeper view must list every keeper, so that
/// trimming leaves exactly the keeper set.
fn shard_consistent_exec(shard: &AuthoritativeShard, keepers: &Vec<u64>) -> (r: bool)
    requires
        forall|n: u64| keepers@.contains(n) <==> keeper_nodes(shard@).contains(n),
    ensures
        r == shard_consistent(shard@),
{
    let ghost s = shard@;
    let mut i: usize = 0;
    while i < shard.views.len()
        invariant
            i <= shard.views@.len(),
            s == shard@,
            s.views.len() == shard.views@.len(),
            forall|n: u64| keepers@.contains(n) <==> keeper_nodes(s).contains(n),
            forall|k: int|
                #![trigger s.views[k]]
                0 <= k < i && view_epoch_matches(s, s.views[k]) ==> (forall|n: u64|
                    keeper_nodes(s).contains(n) ==> #[trigger] s.views[k].members.contains(n)),
        decreases shard.views@.len() - i,
    {
        let v = &shard.views[i];
        proof {
            assert(s.views[i as int] == shard.views@[i as int]@);
        }
        if v.conf_ver == shard.conf_ver && v.version == shard.version {
            if !vec_subset(keepers, &v.members) {
                proof {
                    let x = choose|x: u64| keepers@.contains(x) && !v.members@.contains(x);
                    assert(keeper_nodes(s).contains(x));
                    assert(view_epoch_matches(s, s.views[i as int]));
                    assert(!s.views[i as int].members.contains(x));
                }
                return false;
            }
            proof {
                assert forall|n: u64| keeper_nodes(s).contains(n) implies s.views[
                    i as int
                ].members.contains(n) by {
                    assert(keepers@.contains(n));
                }
            }
        }
        i = i + 1;
    }
    true
}

/// Builds the repair plan from the resolved shards: for every auto-fixable
/// shard that passes its self-audit, a tombstone for each stale replica and
/// a trim for each stale member of a keeper view, grouped per node and
/// ordered by node, shard and member; the auto-fixable shards that fail the
/// audit are excluded and flagged instead.
pub fn synthesize(shards: &Vec<ResolvedShard>) -> (r: RepairPlan)
    requires
        forall|i: int, j: int|
            0 <= i < j < shards@.len() ==> (#[trigger] shards@[i]).shard@.id
                != (#[trigger] shards@[j]).shard@.id,
        forall|i: int| 0 <= i < shards@.len() ==> shard_input_wf(#[trigger] shards@[i]),
    ensures
        is_plan_for(shards@, plan_models(r.plans@)),
        r.inconsistent@ == flagged_inconsistent(shards@),
{
    let ghost ss = shards@;
    let ghost ipred = |r: ResolvedShard|
        r.class == HealthClass::AutoFixable && !shard_consistent(r.shard@);
    let mut plans: Vec<NodeRepairPlan> = Vec::new();
    let mut inconsistent: Vec<u64> = Vec::new();
    let mut si: usize = 0;
    proof {
        assert(ss.take(0) =~= Seq::<ResolvedShard>::empty());
        assert(ss.take(0).filter(ipred) =~= Seq::<ResolvedShard>::empty());
        assert(inconsistent@ =~= ss.take(0).filter(ipred).map_values(
            |r: ResolvedShard| r.shard@.id,
        ));
    }
    while si < shards.len()
        invariant
            si <= shards@.len(),
            ss == shards@,
            forall|i: int, j: int|
                0 <= i < j < ss.len() ==> (#[trigger] ss[i]).shard@.id
                    != (#[trigger] ss[j]).shard@.id,
            forall|i: int| 0 <= i < ss.len() ==> shard_input_wf(#[trigger] ss[i]),
            plans_wf(plan_models(plans@)),
            forall|n: u64, t: u64|
                #[trigger] plan_has_tomb(plan_models(plans@), n, t) <==> tomb_upto(
                    ss,
                    si as int,
                    n,
                    t,
                ),
            forall|n: u64, t: u64, m: u64|
                #[trigger] plan_has_trim(plan_models(plans@), n, t, m) <==> trim_upto(
                    ss,
                    si as int,
                    n,
                    t,
                    m,
                ),
            ipred == (|r: ResolvedShard|
                r.class == HealthClass::AutoFixable && !shard_consistent(r.shard@)),
            inconsistent@ == ss.take(si as int).filter(ipred).map_values(
                |r: ResolvedShard| r.shard@.id,
            ),
        decreases shards@.len() - si,
    {
        let rs = &shards[si];
        let ghost s = rs.shard@;
        let ghost id = s.id;
        let is_auto = rs.class == HealthClass::AutoFixable;
        let mut audit_ok = false;
        if is_auto {
            let keepers = collect_keepers(&rs.shard);
            audit_ok = shard_consistent_exec(&rs.shard, &keepers);
            if audit_ok {
                let mut vi: usize = 0;
                while vi < rs.shard.views.len()
                    invariant
                        vi <= rs.shard.views@.len(),
                        ss == shards@,
                        si < ss.len(),
                        rs == ss[si as int],
                        s == rs.shard@,
                        id == s.id,
                        s.views.len() == rs.shard.views@.len(),
                        shard_input_wf(ss[si as int]),
                        forall|i: int, j: int|
                            0 <= i < j < ss.len() ==> (#[trigger] ss[i]).shard@.id
                                != (#[trigger] ss[j]).shard@.id,
                        forall|n: u64| keepers@.contains(n) <==> keeper_nodes(s).contains(n),
                        plans_wf(plan_models(plans@)),
                        forall|n: u64, t: u64|
                            #[trigger] plan_has_tomb(plan_models(plans@), n, t) <==> tomb_upto(
                                ss,
                                si as int,
                                n,
                                t,
                            ) || (t == id && tomb_prefix(s, vi as int, n)),
                        forall|n: u64, t: u64, m: u64|
                            #[trigger] plan_has_trim(plan_models(plans@), n, t, m) <==> trim_upto(
                                ss,
                                si as int,
                                n,
                                t,
                                m,
                            ) || (t == id && trim_prefix(s, vi as int, n, m)),
                    decreases rs.shard.views@.len() - vi,
                {
                    let v = &rs.shard.views[vi];
                    proof {
                        assert(s.views[vi as int] == rs.shard.views@[vi as int]@);
                        lemma_tomb_prefix_step(s, vi as int);
                        lemma_trim_prefix_step(s, vi as int);
                    }
                    if v.conf_ver != rs.shard.conf_ver || v.version != rs.shard.version {
                        proof {
                            assert(!plan_has_tomb(plan_models(plans@), v.node_id, id)) by {
                                if tomb_upto(ss, si as int, v.node_id, id) {
                                    let i = choose|i: int|
                                        #![trigger ss[i]]
                                        0 <= i < si && ss[i].shard@.id == id && shard_active(ss[i])
                                            && tomb_nodes(ss[i].shard@).contains(v.node_id);
                                    assert(ss[i].shard@.id != ss[si as int].shard@.id);
                                }
                                if tomb_prefix(s, vi as int, v.node_id) {
                                    let k = choose|k: int|
                                        #![trigger s.views[k]]
                                        0 <= k < vi && s.views[k].node_id == v.node_id
                                            && !view_epoch_matches(s, s.views[k]);
                                    assert(s.views[k].node_id != s.views[vi as int].node_id);
                                }
                            }
                        }
                        add_tombstone(&mut plans, v.node_id, rs.shard.id);
                    } else {
                        let stale = stale_members(v, &keepers);
                        let ghost stale0 = stale@;
                        proof {
                            assert(view_wf(s.views[vi as int]));
                            assert forall|m: u64|
                                stale0.contains(m) <==> (s.views[vi as int].members.contains(m)
                                && !keeper_nodes(s).contains(m)) by {
                                assert(stale0.contains(m) <==> v@.members.contains(m)
                                    && !keepers@.contains(m));
                            }
                        }
                        if stale.len() > 0 {
                            proof {
                                assert forall|m: u64|
                                    !plan_has_trim(plan_models(plans@), v.node_id, id, m) by {
                                    if trim_upto(ss, si as int, v.node_id, id, m) {
                                        let i = choose|i: int|
                                            #![trigger ss[i]]
                                            0 <= i < si && ss[i].shard@.id == id && shard_active(
                                                ss[i],
                                            ) && trim_members(ss[i].shard@, v.node_id).contains(m);
                                        assert(ss[i].shard@.id != ss[si as int].shard@.id);
                                    }
                                    if trim_prefix(s, vi as int, v.node_id, m) {
                                        let k = choose|k: int|
                                            #![trigger s.views[k]]
                                            0 <= k < vi && s.views[k].node_id == v.node_id
                                                && view_epoch_matches(s, s.views[k])
                                                && s.views[k].members.contains(m)
                                                && !keeper_nodes(s).contains(m);
                                        assert(s.views[k].node_id != s.views[vi as int].node_id);
                                    }
                                }
                            }
                            add_trim(&mut plans, v.node_id, rs.shard.id, stale);
                        } else {
                            proof {
                                assert forall|m: u64|
                                    !(s.views[vi as int].members.contains(m) && !keeper_nodes(
                                        s,
                                    ).contains(m)) by {
                                    if s.views[vi as int].members.contains(m) && !keeper_nodes(
                                        s,
                                    ).contains(m) {
                                        assert(stale0.contains(m));
                                        let q = choose|q: int|
                                            0 <= q < stale0.len() && stale0[q] == m;
                                    }
                                }
                            }
                        }
                    }
                    vi = vi + 1;
                }
                proof {
                    assert(shard_active(ss[si as int])) by {
                        assert(shard_consistent(s));
                    }
                    assert forall|n: u64| tomb_prefix(s, s.views.len() as int, n) <==> tomb_nodes(
                        s,
                    ).contains(n) by {}
                    assert forall|n: u64, m: u64|
                        trim_prefix(s, s.views.len() as int, n, m) <==> trim_members(
                            s,
                            n,
                        ).contains(m) by {}
                }
            } else {
                inconsistent.push(rs.shard.id);
            }
        }
        proof {
            lemma_tomb_upto_step(ss, si as int);
            let fullpred = ipred;
            assert(ss.take(si as int + 1) =~= ss.take(si as int).push(ss[si as int]));
            ss.take(si as int).lemma_filter_push(ss[si as int], fullpred);
            if is_auto && !audit_ok {
                assert(ipred(ss[si as int]));
                assert(inconsistent@ =~= ss.take(si as int + 1).filter(ipred).map_values(
                    |r: ResolvedShard| r.shard@.id,
                ));
            } else {
                assert(!ipred(ss[si as int]));
                assert(inconsistent@ =~= ss.take(si as int + 1).filter(ipred).map_values(
                    |r: ResolvedShard| r.shard@.id,
                ));
            }
            if !(is_auto && audit_ok) {
                assert(!shard_active(ss[si as int]));
            }
        }
        si = si + 1;
    }
    proof {
        assert(ss.take(ss.len() as int) =~= ss);
        assert forall|n: u64, t: u64|
            #[trigger] plan_has_tomb(plan_models(plans@), n, t) <==> tomb_upto(
                ss,
                ss.len() as int,
                n,
                t,
            ) by {}
    }
    RepairPlan { plans, inconsistent }
}


/// Node `n` reports a view of shard `s`.
pub open spec fn node_reports(s: ShardModel, n: u64) -> bool {
    exists|k: int| #![trigger s.views[k]] 0 <= k < s.views.len() && s.views[k].node_id == n
}

/// Some view of shard `s` lists `m` as a member.
pub open spec fn member_listed(s: ShardModel, m: u64) -> bool {
    exists|k: int| #![trigger s.views[k]] 0 <= k < s.views.len() && s.views[k].members.contains(m)
}

/// Every action of a synthesized plan references only node identifiers
/// present among the named shard's own replica views: a tombstone targets a
/// reporting node, and a trim targets a reporting node and drops a member
/// that a view of that shard lists.
pub proof fn lemma_plan_references_input_nodes(rs: Seq<ResolvedShard>, ps: Seq<PlanModel>)
    requires
        is_plan_for(rs, ps),
    ensures
        forall|n: u64, t: u64|
            #[trigger] plan_has_tomb(ps, n, t) ==> exists|i: int|
                #![trigger rs[i]]
                0 <= i < rs.len() && rs[i].shard@.id == t && node_reports(rs[i].shard@, n),
        forall|n: u64, t: u64, m: u64|
            #[trigger] plan_has_trim(ps, n, t, m) ==> exists|i: int|
                #![trigger rs[i]]
                0 <= i < rs.len() && rs[i].shard@.id == t && node_reports(rs[i].shard@, n)
                    && member_listed(rs[i].shard@, m),
{
    assert forall|n: u64, t: u64| #[trigger] plan_has_tomb(ps, n, t) implies exists|i: int|
        #![trigger rs[i]]
        0 <= i < rs.len() && rs[i].shard@.id == t && node_reports(rs[i].shard@, n) by {
        let i = choose|i: int|
            #![trigger rs[i]]
            0 <= i < rs.len() && rs[i].shard@.id == t && shard_active(rs[i]) && tomb_nodes(
                rs[i].shard@,
            ).contains(n);
        let s = rs[i].shard@;
        let k = choose|k: int|
            #![trigger s.views[k]]
            0 <= k < s.views.len() && s.views[k].node_id == n && !view_epoch_matches(
                s,
                s.views[k],
            );
        assert(node_reports(s, n));
    }
    assert forall|n: u64, t: u64, m: u64| #[trigger] plan_has_trim(ps, n, t, m) implies exists|
        i: int,
    |
        #![trigger rs[i]]
        0 <= i < rs.len() && rs[i].shard@.id == t && node_reports(rs[i].shard@, n)
            && member_listed(rs[i].shard@, m) by {
        let i = choose|i: int|
            #![trigger rs[i]]
            0 <= i < rs.len() && rs[i].shard@.id == t && shard_active(rs[i]) && trim_members(
                rs[i].shard@,
                n,
            ).contains(m);
        let s = rs[i].shard@;
        let k = choose|k: int|
            #![trigger s.views[k]]
            0 <= k < s.views.len() && s.views[k].node_id == n && view_epoch_matches(s, s.views[k])
                && s.views[k].members.contains(m) && !keeper_nodes(s).contains(m);
        assert(node_reports(s, n));
        assert(member_listed(s, m));
    }
}

/// A shard that is not auto-fixable — healthy, in need of recomputation or
/// of a manual selection — contributes nothing to the plan: no tombstone
/// and no trim ever names it.
pub proof fn lemma_inactive_shard_untouched(rs: Seq<ResolvedShard>, ps: Seq<PlanModel>, i: int)
    requires
        is_plan_for(rs, ps),
        0 <= i < rs.len(),
        forall|a: int, b: int|
            0 <= a < b < rs.len() ==> (#[trigger] rs[a]).shard@.id != (#[trigger] rs[b]).shard@.id,
        rs[i].class != HealthClass::AutoFixable,
    ensures
        forall|n: u64| !plan_has_tomb(ps, n, rs[i].shard@.id),
        forall|n: u64, m: u64| !plan_has_trim(ps, n, rs[i].shard@.id, m),
{
    let t = rs[i].shard@.id;
    assert forall|n: u64| !plan_has_tomb(ps, n, t) by {
        if plan_has_tomb(ps, n, t) {
            let j = choose|j: int|
                #![trigger rs[j]]
                0 <= j < rs.len() && rs[j].shard@.id == t && shard_active(rs[j]) && tomb_nodes(
                    rs[j].shard@,
                ).contains(n);
            assert(j != i);
            assert(rs[i].shard@.id != rs[j].shard@.id);
        }
    }
    assert forall|n: u64, m: u64| !plan_has_trim(ps, n, t, m) by {
        if plan_has_trim(ps, n, t, m) {
            let j = choose|j: int|
                #![trigger rs[j]]
                0 <= j < rs.len() && rs[j].shard@.id == t && shard_active(rs[j]) && trim_members(
                    rs[j].shard@,
                    n,
                ).contains(m);
            assert(j != i);
            assert(rs[i].shard@.id != rs[j].shard@.id);
        }
    }
}

} // verus!
