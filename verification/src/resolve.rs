//! The authoritative state resolver: reduces one shard's replica views to a
//! single authoritative record and grades the shard's health.
//!
//! A view `a` dominates `b` when both epoch counters of `a` are at least
//! those of `b`. Folding that rule over the views in any order lands on a
//! view whose epoch no other view dominates; to make the outcome independent
//! of the input order even when several maximal-epoch views disagree, the
//! resolver picks the maximum under a fixed total order that starts with the
//! epoch. Classification then compares every view against that final record
//! only, never against an intermediate fold, so it is order-independent too.

use vstd::prelude::*;
use crate::model::{
    models, same_data, same_epoch, AuthoritativeShard, HealthClass, ReplicaView, ResolvedShard,
    ShardModel, ViewModel, clone_key, clone_members,
};
use crate::order::{
    key_cmp, lemma_lex_u64_eq, lemma_lex_u64_flip, lemma_lex_u64_range, lemma_lex_u64_trans,
    lemma_lex_u8_eq, lemma_lex_u8_flip, lemma_lex_u8_range, lemma_lex_u8_trans, lex_cmp_u64,
    lex_cmp_u8, members_cmp,
};

verus! {

/// Total three-way order on views: epoch first (`conf_ver`, then `version`),
/// then range, membership, and the identifiers as tie breakers.
pub open spec fn vm_cmp(a: ViewModel, b: ViewModel) -> int {
    if a.conf_ver < b.conf_ver {
        -1
    } else if a.conf_ver > b.conf_ver {
        1
    } else if a.version < b.version {
        -1
    } else if a.version > b.version {
        1
    } else if lex_cmp_u8(a.start_key, b.start_key) != 0 {
        lex_cmp_u8(a.start_key, b.start_key)
    } else if lex_cmp_u8(a.end_key, b.end_key) != 0 {
        lex_cmp_u8(a.end_key, b.end_key)
    } else if lex_cmp_u64(a.members, b.members) != 0 {
        lex_cmp_u64(a.members, b.members)
    } else if a.node_id < b.node_id {
        -1
    } else if a.node_id > b.node_id {
        1
    } else if a.shard_id < b.shard_id {
        -1
    } else if a.shard_id > b.shard_id {
        1
    } else {
        0
    }
}

pub proof fn lemma_vm_cmp_refl(a: ViewModel)
    ensures
        vm_cmp(a, a) == 0,
{
    lemma_lex_u8_eq(a.start_key, a.start_key);
    lemma_lex_u8_eq(a.end_key, a.end_key);
    lemma_lex_u64_eq(a.members, a.members);
}

pub proof fn lemma_vm_cmp_eq(a: ViewModel, b: ViewModel)
    requires
        vm_cmp(a, b) == 0,
    ensures
        a == b,
{
    lemma_lex_u8_eq(a.start_key, b.start_key);
    lemma_lex_u8_eq(a.end_key, b.end_key);
    lemma_lex_u64_eq(a.members, b.members);
    assert(a =~= b);
}

pub proof fn lemma_vm_cmp_flip(a: ViewModel, b: ViewModel)
    ensures
        vm_cmp(b, a) == -vm_cmp(a, b),
{
    lemma_lex_u8_range(a.start_key, b.start_key);
    lemma_lex_u8_range(a.end_key, b.end_key);
    lemma_lex_u64_range(a.members, b.members);
    lemma_lex_u8_flip(a.start_key, b.start_key);
    lemma_lex_u8_flip(a.end_key, b.end_key);
    lemma_lex_u64_flip(a.members, b.members);
}

pub proof fn lemma_vm_cmp_trans_le(a: ViewModel, b: ViewModel, c: ViewModel)
    requires
        vm_cmp(a, b) <= 0,
        vm_cmp(b, c) <= 0,
    ensures
        vm_cmp(a, c) <= 0,
{
    lemma_lex_u8_range(a.start_key, b.start_key);
    lemma_lex_u8_range(b.start_key, c.start_key);
    lemma_lex_u8_range(a.end_key, b.end_key);
    lemma_lex_u8_range(b.end_key, c.end_key);
    lemma_lex_u64_range(a.members, b.members);
    lemma_lex_u64_range(b.members, c.members);
    if vm_cmp(a, b) == 0 {
        lemma_vm_cmp_eq(a, b);
    } else if vm_cmp(b, c) == 0 {
        lemma_vm_cmp_eq(b, c);
    } else if a.conf_ver < c.conf_ver {
        // first level already strict
    } else {
        assert(a.conf_ver == b.conf_ver && b.conf_ver == c.conf_ver);
        if a.version < c.version {
        } else {
            assert(a.version == b.version && b.version == c.version);
            lemma_lex_u8_trans(a.start_key, b.start_key, c.start_key);
            if lex_cmp_u8(a.start_key, c.start_key) < 0 {
            } else {
                lemma_lex_u8_eq(a.start_key, c.start_key);
                assert(a.start_key == c.start_key);
                lemma_lex_u8_flip(a.start_key, b.start_key);
                lemma_lex_u8_eq(a.start_key, b.start_key);
                lemma_lex_u8_eq(b.start_key, c.start_key);
                assert(a.start_key == b.start_key && b.start_key == c.start_key);
                lemma_lex_u8_trans(a.end_key, b.end_key, c.end_key);
                if lex_cmp_u8(a.end_key, c.end_key) < 0 {
                } else {
                    lemma_lex_u8_eq(a.end_key, c.end_key);
                    lemma_lex_u8_flip(a.end_key, b.end_key);
                    lemma_lex_u8_eq(a.end_key, b.end_key);
                    lemma_lex_u8_eq(b.end_key, c.end_key);
                    assert(a.end_key == b.end_key && b.end_key == c.end_key);
                    lemma_lex_u64_trans(a.members, b.members, c.members);
                    if lex_cmp_u64(a.members, c.members) < 0 {
                    } else {
                        lemma_lex_u64_eq(a.members, c.members);
                        lemma_lex_u64_flip(a.members, b.members);
                        lemma_lex_u64_eq(a.members, b.members);
                        lemma_lex_u64_eq(b.members, c.members);
                        assert(a.members == b.members && b.members == c.members);
                        // only integer tie breakers remain
                    }
                }
            }
        }
    }
}

/// The canonical resolution of a non-empty collection of views: the maximum
/// under [`vm_cmp`]. Its epoch dominates every view's epoch whenever any
/// view's epoch does; its range and membership seed the authoritative record.
pub open spec fn best_view(s: Seq<ViewModel>) -> ViewModel
    recommends
        s.len() > 0,
    decreases s.len(),
{
    if s.len() <= 1 {
        s[0]
    } else {
        let prev = best_view(s.drop_last());
        if vm_cmp(prev, s.last()) < 0 {
            s.last()
        } else {
            prev
        }
    }
}

/// The canonical resolution is one of the views and no view exceeds it.
pub proof fn lemma_best_view(s: Seq<ViewModel>)
    requires
        s.len() > 0,
    ensures
        s.contains(best_view(s)),
        forall|i: int| 0 <= i < s.len() ==> vm_cmp(#[trigger] s[i], best_view(s)) <= 0,
    decreases s.len(),
{
    if s.len() == 1 {
        lemma_vm_cmp_refl(s[0]);
        assert(s.contains(s[0]));
    } else {
        let t = s.drop_last();
        lemma_best_view(t);
        let prev = best_view(t);
        let last = s.last();
        assert(forall|i: int| 0 <= i < t.len() ==> s[i] == #[trigger] t[i]);
        if vm_cmp(prev, last) < 0 {
            assert forall|i: int| 0 <= i < s.len() implies vm_cmp(#[trigger] s[i], last) <= 0 by {
                if i < s.len() - 1 {
                    assert(s[i] == t[i]);
                    assert(vm_cmp(t[i], prev) <= 0);
                    lemma_vm_cmp_trans_le(s[i], prev, last);
                } else {
                    lemma_vm_cmp_refl(last);
                }
            }
            assert(s[s.len() - 1] == last);
            assert(s.contains(last));
        } else {
            lemma_vm_cmp_flip(prev, last);
            assert forall|i: int| 0 <= i < s.len() implies vm_cmp(#[trigger] s[i], prev) <= 0 by {
                if i == s.len() - 1 {
                    assert(s[i] == last);
                } else {
                    assert(s[i] == t[i]);
                    assert(vm_cmp(t[i], prev) <= 0);
                }
            }
            assert(t.contains(prev));
            let j = choose|j: int| 0 <= j < t.len() && t[j] == prev;
            assert(s[j] == prev);
            assert(s.contains(prev));
        }
    }
}

/// The health grade of a non-empty collection of views, judged only against
/// the canonical resolution: a view whose version exceeds the resolved
/// version has an epoch incomparable with the resolved epoch; a view with
/// the resolved epoch but other data contradicts it; a view with an older
/// epoch is strictly stale.
pub open spec fn classify_views(s: Seq<ViewModel>) -> HealthClass {
    let r = best_view(s);
    if exists|i: int| #![trigger s[i]] 0 <= i < s.len() && s[i].version > r.version {
        HealthClass::NeedsRecompute
    } else if exists|i: int|
        #![trigger s[i]]
        0 <= i < s.len() && same_epoch(s[i], r) && !same_data(s[i], r) {
        HealthClass::NeedsSelect
    } else if exists|i: int| #![trigger s[i]] 0 <= i < s.len() && !same_epoch(s[i], r) {
        HealthClass::AutoFixable
    } else {
        HealthClass::Healthy
    }
}

/// Carries any one-view property across a permutation.
proof fn lemma_exists_transfer(s1: Seq<ViewModel>, s2: Seq<ViewModel>, p: spec_fn(ViewModel) -> bool)
    requires
        s1.to_multiset() == s2.to_multiset(),
        exists|i: int| #![trigger s1[i]] 0 <= i < s1.len() && p(s1[i]),
    ensures
        exists|j: int| #![trigger s2[j]] 0 <= j < s2.len() && p(s2[j]),
{
    broadcast use vstd::seq_lib::group_to_multiset_ensures;

    let i = choose|i: int| #![trigger s1[i]] 0 <= i < s1.len() && p(s1[i]);
    let x = s1[i];
    assert(s1.contains(x));
    assert(s1.to_multiset().count(x) > 0);
    assert(s2.contains(x));
    let j = choose|j: int| 0 <= j < s2.len() && s2[j] == x;
    assert(0 <= j < s2.len() && p(s2[j]));
}

/// Resolution does not depend on the order the views arrive in: any
/// permutation of the same views yields the same authoritative record.
pub proof fn lemma_best_view_permutation(s1: Seq<ViewModel>, s2: Seq<ViewModel>)
    requires
        s1.len() > 0,
        s1.to_multiset() == s2.to_multiset(),
    ensures
        best_view(s1) == best_view(s2),
{
    broadcast use vstd::seq_lib::group_to_multiset_ensures;

    assert(s1.to_multiset().len() == s1.len());
    assert(s2.to_multiset().len() == s2.len());
    lemma_best_view(s1);
    lemma_best_view(s2);
    let b1 = best_view(s1);
    let b2 = best_view(s2);
    assert(s1.to_multiset().count(b1) > 0);
    assert(s2.contains(b1));
    let j = choose|j: int| 0 <= j < s2.len() && s2[j] == b1;
    assert(vm_cmp(b1, b2) <= 0);
    assert(s2.to_multiset().count(b2) > 0);
    assert(s1.contains(b2));
    let k = choose|k: int| 0 <= k < s1.len() && s1[k] == b2;
    assert(vm_cmp(b2, b1) <= 0);
    lemma_vm_cmp_flip(b1, b2);
    lemma_vm_cmp_eq(b1, b2);
}

/// Classification does not depend on the order the views arrive in either.
pub proof fn lemma_classify_permutation(s1: Seq<ViewModel>, s2: Seq<ViewModel>)
    requires
        s1.len() > 0,
        s1.to_multiset() == s2.to_multiset(),
    ensures
        classify_views(s1) == classify_views(s2),
{
    broadcast use vstd::seq_lib::group_to_multiset_ensures;

    assert(s2.len() == s2.to_multiset().len());
    lemma_best_view_permutation(s1, s2);
    let r = best_view(s1);
    if exists|i: int| #![trigger s1[i]] 0 <= i < s1.len() && s1[i].version > r.version {
        lemma_exists_transfer(s1, s2, |v: ViewModel| v.version > r.version);
    }
    if exists|j: int| #![trigger s2[j]] 0 <= j < s2.len() && s2[j].version > r.version {
        lemma_exists_transfer(s2, s1, |v: ViewModel| v.version > r.version);
    }
    if exists|i: int| #![trigger s1[i]] 0 <= i < s1.len() && same_epoch(s1[i], r) && !same_data(s1[i], r) {
        lemma_exists_transfer(s1, s2, |v: ViewModel| same_epoch(v, r) && !same_data(v, r));
    }
    if exists|j: int| #![trigger s2[j]] 0 <= j < s2.len() && same_epoch(s2[j], r) && !same_data(s2[j], r) {
        lemma_exists_transfer(s2, s1, |v: ViewModel| same_epoch(v, r) && !same_data(v, r));
    }
    if exists|i: int| #![trigger s1[i]] 0 <= i < s1.len() && !same_epoch(s1[i], r) {
        lemma_exists_transfer(s1, s2, |v: ViewModel| !same_epoch(v, r));
    }
    if exists|j: int| #![trigger s2[j]] 0 <= j < s2.len() && !same_epoch(s2[j], r) {
        lemma_exists_transfer(s2, s1, |v: ViewModel| !same_epoch(v, r));
    }
}

/// When every view of a shard carries one epoch and one range and
/// membership, the shard is healthy.
pub proof fn lemma_uniform_views_healthy(s: Seq<ViewModel>)
    requires
        s.len() > 0,
        forall|i: int, j: int|
            #![trigger s[i], s[j]]
            0 <= i < s.len() && 0 <= j < s.len() ==> same_epoch(s[i], s[j]) && same_data(s[i], s[j]),
    ensures
        classify_views(s) == HealthClass::Healthy,
{
    lemma_best_view(s);
    let r = best_view(s);
    let k = choose|k: int| 0 <= k < s.len() && s[k] == r;
    assert(forall|i: int| #![trigger s[i]] 0 <= i < s.len() ==> same_epoch(s[i], r) && same_data(s[i], r));
}

/// The resolved record of a shard repeats the fields of one view.
pub open spec fn resolved_matches(s: ShardModel, v: ViewModel) -> bool {
    &&& s.start_key == v.start_key
    &&& s.end_key == v.end_key
    &&& s.conf_ver == v.conf_ver
    &&& s.version == v.version
    &&& s.members == v.members
}

/// Compares two replica views under the canonical total order.
fn vm_cmp_exec(a: &ReplicaView, b: &ReplicaView) -> (r: i8)
    ensures
        r as int == vm_cmp(a@, b@),
{
    if a.conf_ver < b.conf_ver {
        return -1;
    }
    if a.conf_ver > b.conf_ver {
        return 1;
    }
    if a.version < b.version {
        return -1;
    }
    if a.version > b.version {
        return 1;
    }
    let c0: i8 = key_cmp(&a.start_key, &b.start_key);
    if c0 != 0 {
        return c0;
    }
    let c1: i8 = key_cmp(&a.end_key, &b.end_key);
    if c1 != 0 {
        return c1;
    }
    let c2: i8 = members_cmp(&a.members, &b.members);
    if c2 != 0 {
        return c2;
    }
    if a.node_id < b.node_id {
        return -1;
    }
    if a.node_id > b.node_id {
        return 1;
    }
    if a.shard_id < b.shard_id {
        return -1;
    }
    if a.shard_id > b.shard_id {
        return 1;
    }
    0
}

/// Resolves one shard's views to the authoritative record and grades the
/// shard's health. The record repeats the canonical resolution's range,
/// epoch and membership, and retains every view for audit.
pub fn resolve(shard_id: u64, views: Vec<ReplicaView>) -> (r: ResolvedShard)
    requires
        views@.len() > 0,
        forall|i: int| 0 <= i < views@.len() ==> (#[trigger] views@[i]).shard_id == shard_id,
    ensures
        r.shard@.id == shard_id,
        r.shard@.views == models(views@),
        resolved_matches(r.shard@, best_view(models(views@))),
        r.class == classify_views(models(views@)),
{
    let ghost m = models(views@);
    let n: usize = views.len();
    let mut best: usize = 0;
    let mut i: usize = 1;
    proof {
        assert(m.take(1)[0] == m[0]);
        assert(m.take(1).len() == 1);
    }
    while i < n
        invariant
            1 <= i <= n,
            n == views@.len(),
            best < i,
            m == models(views@),
            views@[best as int]@ == best_view(m.take(i as int)),
        decreases n - i,
    {
        let c: i8 = vm_cmp_exec(&views[best], &views[i]);
        proof {
            assert(m.take(i as int + 1).drop_last() =~= m.take(i as int));
            assert(m.take(i as int + 1).last() == m[i as int]);
            assert(m.take(i as int + 1).len() > 1);
        }
        if c < 0 {
            best = i;
        }
        i = i + 1;
    }
    proof {
        assert(m.take(n as int) =~= m);
    }
    let ghost r_model = best_view(m);
    let bv_conf: u64 = views[best].conf_ver;
    let bv_version: u64 = views[best].version;
    let bv_start: Vec<u8> = clone_key(&views[best].start_key);
    let bv_end: Vec<u8> = clone_key(&views[best].end_key);
    let bv_members: Vec<u64> = clone_members(&views[best].members);
    let mut has_newer = false;
    let mut has_select = false;
    let mut has_stale = false;
    let mut j: usize = 0;
    while j < n
        invariant
            j <= n,
            n == views@.len(),
            m == models(views@),
            r_model == best_view(m),
            bv_conf == r_model.conf_ver,
            bv_version == r_model.version,
            bv_start@ == r_model.start_key,
            bv_end@ == r_model.end_key,
            bv_members@ == r_model.members,
            has_newer == exists|i: int|
                #![trigger m[i]]
                0 <= i < j && m[i].version > r_model.version,
            has_select == exists|i: int|
                #![trigger m[i]]
                0 <= i < j && same_epoch(m[i], r_model) && !same_data(m[i], r_model),
            has_stale == exists|i: int| #![trigger m[i]] 0 <= i < j && !same_epoch(m[i], r_model),
        decreases n - j,
    {
        let v = &views[j];
        proof {
            assert(m[j as int] == views@[j as int]@);
        }
        if v.version > bv_version {
            has_newer = true;
        }
        if v.conf_ver == bv_conf && v.version == bv_version {
            let d0: i8 = key_cmp(&v.start_key, &bv_start);
            let d1: i8 = key_cmp(&v.end_key, &bv_end);
            let d2: i8 = members_cmp(&v.members, &bv_members);
            proof {
                lemma_lex_u8_eq(v@.start_key, r_model.start_key);
                lemma_lex_u8_eq(v@.end_key, r_model.end_key);
                lemma_lex_u64_eq(v@.members, r_model.members);
            }
            if d0 != 0 || d1 != 0 || d2 != 0 {
                has_select = true;
            }
        } else {
            has_stale = true;
        }
        j = j + 1;
    }
    let class = if has_newer {
        HealthClass::NeedsRecompute
    } else if has_select {
        HealthClass::NeedsSelect
    } else {
        if has_stale {
            HealthClass::AutoFixable
        } else {
            HealthClass::Healthy
        }
    };
    let shard = AuthoritativeShard {
        id: shard_id,
        views,
        start_key: bv_start,
        end_key: bv_end,
        conf_ver: bv_conf,
        version: bv_version,
        members: bv_members,
    };
    ResolvedShard { shard, class }
}

} // verus!
