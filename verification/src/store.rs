//! The replica view store: groups ingested replica views by shard, one
//! entry per shard in ascending shard order, one view per reporting node.
//! Ingestion hands the store plain typed views; a malformed view or a
//! second view from the same node for the same shard is rejected with an
//! error, never silently kept.

use vstd::prelude::*;
use crate::model::{members_sorted, models, view_wf, ReplicaView, ResolvedShard, ViewModel};
use crate::resolve::{best_view, classify_views, resolve, resolved_matches};
use crate::plan::shard_input_wf;

verus! {

/// All views the store holds for one shard.
#[derive(Debug, Clone, PartialEq, Eq)]
pub struct ShardViews {
    pub shard_id: u64,
    pub views: Vec<ReplicaView>,
}

/// The mathematical value of a [`ShardViews`].
#[verifier::ext_equal]
pub ghost struct EntryModel {
    pub shard_id: u64,
    pub views: Seq<ViewModel>,
}

impl View for ShardViews {
    type V = EntryModel;

    open spec fn view(&self) -> EntryModel {
        EntryModel { shard_id: self.shard_id, views: models(self.views@) }
    }
}

/// Why the store refused a view.
#[derive(Clone, Copy, Debug, PartialEq, Eq, Structural)]
pub enum InsertError {
    /// The view's membership record is not a strictly sorted set.
    MalformedView,
    /// The store already holds a view of this shard from this node.
    DuplicateNode,
}

/// The models of the store's entries.
pub open spec fn entry_models(s: Seq<ShardViews>) -> Seq<EntryModel> {
    s.map_values(|e: ShardViews| e@)
}

/// A store entry is never empty, its views belong to its shard, are well
/// formed, and come one per node.
pub open spec fn entry_wf(e: EntryModel) -> bool {
    &&& e.views.len() > 0
    &&& forall|i: int|
        0 <= i < e.views.len() ==> (#[trigger] e.views[i]).shard_id == e.shard_id && view_wf(
            e.views[i],
        )
    &&& forall|i: int, j: int|
        0 <= i < j < e.views.len() ==> (#[trigger] e.views[i]).node_id
            != (#[trigger] e.views[j]).node_id
}

/// The store's entries are strictly sorted by shard and all well formed.
pub open spec fn store_wf(s: Seq<EntryModel>) -> bool {
    &&& forall|i: int, j: int|
        0 <= i < j < s.len() ==> (#[trigger] s[i]).shard_id < (#[trigger] s[j]).shard_id
    &&& forall|i: int| 0 <= i < s.len() ==> entry_wf(#[trigger] s[i])
}

/// The store holds a view of shard `id` reported by node `n`.
pub open spec fn store_has_node(s: Seq<EntryModel>, id: u64, n: u64) -> bool {
    exists|i: int, j: int|
        #![trigger s[i].views[j]]
        0 <= i < s.len() && s[i].shard_id == id && 0 <= j < s[i].views.len()
            && s[i].views[j].node_id == n
}

/// Per shard, the list of per-node replica views ingested so far.
pub struct ReplicaStore {
    pub entries: Vec<ShardViews>,
}

impl View for ReplicaStore {
    type V = Seq<EntryModel>;

    open spec fn view(&self) -> Seq<EntryModel> {
        entry_models(self.entries@)
    }
}

impl ReplicaStore {
    /// An empty store.
    pub fn new() -> (r: ReplicaStore)
        ensures
            r@.len() == 0,
            store_wf(r@),
    {
        let r = ReplicaStore { entries: Vec::new() };
        proof {
            assert(r@ =~= Seq::<EntryModel>::empty());
        }
        r
    }

    /// How many shards the store has views for.
    pub fn shard_count(&self) -> (r: usize)
        ensures
            r == self@.len(),
    {
        self.entries.len()
    }

    /// Adds one node's view of one shard. A view whose membership record
    /// is not a strictly sorted set is refused as malformed; a second view
    /// of the same shard from the same node is refused as a duplicate; in
    /// both cases the store does not change. Otherwise the view joins its
    /// shard's entry, or founds the entry at its sorted place.
    pub fn insert_view(&mut self, v: ReplicaView) -> (r: Result<(), InsertError>)
        requires
            store_wf(old(self)@),
        ensures
            store_wf(final(self)@),
            match r {
                Err(InsertError::MalformedView) => final(self)@ == old(self)@ && !view_wf(v@),
                Err(InsertError::DuplicateNode) => final(self)@ == old(self)@ && view_wf(v@)
                    && store_has_node(old(self)@, v.shard_id, v.node_id),
                Ok(()) => view_wf(v@) && !store_has_node(old(self)@, v.shard_id, v.node_id) && (
                (exists|i: int|
                    0 <= i < old(self)@.len() && (#[trigger] old(self)@[i]).shard_id == v.shard_id
                        && final(self)@ == old(self)@.update(
                        i,
                        EntryModel {
                            shard_id: v.shard_id,
                            views: old(self)@[i].views.push(v@),
                        },
                    )) || (exists|i: int|
                    0 <= i <= old(self)@.len() && final(self)@ == old(self)@.insert(
                        i,
                        EntryModel { shard_id: v.shard_id, views: seq![v@] },
                    ))),
            },
    {
        let ghost s0 = self@;
        if !members_sorted(&v.members) {
            return Err(InsertError::MalformedView);
        }
        let ghost v0 = self.entries@;
        let id = v.shard_id;
        let node = v.node_id;
        let mut i: usize = 0;
        while i < self.entries.len() && self.entries[i].shard_id < id
            invariant
                i <= self.entries@.len(),
                self.entries@ == v0,
                forall|k: int| 0 <= k < i ==> entry_models(self.entries@)[k].shard_id < id,
            decreases self.entries@.len() - i,
        {
            i = i + 1;
        }
        let found = i < self.entries.len() && self.entries[i].shard_id == id;
        proof {
            if !found {
                assert forall|k: int| 0 <= k < s0.len() implies s0[k].shard_id != id by {
                    if k >= i {
                        assert(s0[i as int].shard_id < s0[k].shard_id || k == i);
                    }
                }
                assert(!store_has_node(s0, id, node)) by {
                    if store_has_node(s0, id, node) {
                        let (a, b) = choose|a: int, b: int|
                            #![trigger s0[a].views[b]]
                            0 <= a < s0.len() && s0[a].shard_id == id && 0 <= b
                                < s0[a].views.len() && s0[a].views[b].node_id == node;
                        assert(s0[a].shard_id != id);
                    }
                }
            }
        }
        if found {
            let ghost e0 = s0[i as int];
            let mut dup = false;
            let mut j: usize = 0;
            while j < self.entries[i].views.len()
                invariant
                    i < self.entries@.len(),
                    j <= self.entries[i as int].views@.len(),
                    self.entries@ == v0,
                    e0 == entry_models(self.entries@)[i as int],
                    e0.views.len() == self.entries[i as int].views@.len(),
                    forall|k: int|
                        0 <= k < e0.views.len() ==> (#[trigger] e0.views[k])
                            == self.entries[i as int].views@[k]@,
                    dup == exists|k: int|
                        #![trigger e0.views[k]]
                        0 <= k < j && e0.views[k].node_id == node,
                decreases self.entries[i as int].views@.len() - j,
            {
                if self.entries[i].views[j].node_id == node {
                    proof {
                        assert(e0.views[j as int].node_id == node);
                    }
                    dup = true;
                }
                j = j + 1;
            }
            if dup {
                proof {
                    let k = choose|k: int|
                        #![trigger e0.views[k]]
                        0 <= k < e0.views.len() && e0.views[k].node_id == node;
                    assert(store_has_node(s0, id, node)) by {
                        assert(s0[i as int].views[k].node_id == node);
                    }
                }
                return Err(InsertError::DuplicateNode);
            }
            proof {
                assert(!store_has_node(s0, id, node)) by {
                    if store_has_node(s0, id, node) {
                        let (a, b) = choose|a: int, b: int|
                            #![trigger s0[a].views[b]]
                            0 <= a < s0.len() && s0[a].shard_id == id && 0 <= b
                                < s0[a].views.len() && s0[a].views[b].node_id == node;
                        if a != i {
                            assert(s0[a].shard_id != s0[i as int].shard_id);
                        }
                    }
                }
            }
            let mut entry = self.entries.remove(i);
            entry.views.push(v);
            let ghost e1 = EntryModel { shard_id: e0.shard_id, views: e0.views.push(v@) };
            proof {
                assert(entry@ =~= e1) by {
                    assert(entry.views@ =~= v0[i as int].views@.push(v));
                }
            }
            self.entries.insert(i, entry);
            proof {
                let s1 = self@;
                v0.remove(i as int).insert_ensures(i as int, self.entries@[i as int]);
                assert(s1 =~= s0.update(i as int, e1)) by {
                    assert(self.entries@ =~= v0.update(i as int, self.entries@[i as int]));
                }
                assert(entry_wf(e1)) by {
                    assert(forall|k: int|
                        0 <= k < e0.views.len() ==> e1.views[k] == #[trigger] e0.views[k]);
                    assert(e1.views[e1.views.len() - 1] == v@);
                }
                assert(store_wf(s1));
                assert(s0[i as int].shard_id == v.shard_id);
            }
            Ok(())
        } else {
            let mut vs: Vec<ReplicaView> = Vec::new();
            vs.push(v);
            let entry = ShardViews { shard_id: id, views: vs };
            let ghost e1 = entry@;
            proof {
                assert(e1.views =~= seq![v@]);
                assert(entry_wf(e1));
            }
            self.entries.insert(i, entry);
            proof {
                let s1 = self@;
                v0.insert_ensures(i as int, self.entries@[i as int]);
                s0.insert_ensures(i as int, e1);
                assert(s1 =~= s0.insert(i as int, e1)) by {
                    assert(self.entries@ =~= v0.insert(i as int, self.entries@[i as int]));
                }
                assert(forall|k: int| i <= k < s0.len() ==> id < (#[trigger] s0[k]).shard_id) by {
                    assert forall|k: int| i <= k < s0.len() implies id < s0[k].shard_id by {
                        if k > i {
                            assert(s0[i as int].shard_id < s0[k].shard_id);
                        }
                    }
                }
                assert(store_wf(s1)) by {
                    let pi = i as int;
                    assert forall|a: int, b: int|
                        0 <= a < b < s1.len() implies s1[a].shard_id < s1[b].shard_id by {
                        if b < pi {
                            assert(s1[a] == s0[a] && s1[b] == s0[b]);
                        } else if a < pi && b == pi {
                            assert(s1[a] == s0[a]);
                        } else if a < pi {
                            assert(s1[a] == s0[a] && s1[(b - 1) + 1] == s0[b - 1]);
                        } else if a == pi {
                            assert(s1[(b - 1) + 1] == s0[b - 1]);
                        } else {
                            assert(s1[(a - 1) + 1] == s0[a - 1] && s1[(b - 1) + 1] == s0[b - 1]);
                        }
                    }
                    assert forall|k: int| 0 <= k < s1.len() implies entry_wf(s1[k]) by {
                        let pi = i as int;
                        if k < pi {
                            assert(s1[k] == s0[k]);
                        } else if k == pi {
                        } else {
                            assert(s1[(k - 1) + 1] == s0[k - 1]);
                        }
                    }
                }
            }
            Ok(())
        }
    }
}

/// Resolves every shard of the store, in ascending shard order: one
/// authoritative record and one health grade per shard, resolved from that
/// shard's views alone.
pub fn resolve_all(store: &ReplicaStore) -> (r: Vec<ResolvedShard>)
    requires
        store_wf(store@),
    ensures
        r@.len() == store@.len(),
        forall|i: int|
            #![trigger r@[i]]
            0 <= i < r@.len() ==> {
                &&& r@[i].shard@.id == store@[i].shard_id
                &&& r@[i].shard@.views == store@[i].views
                &&& resolved_matches(r@[i].shard@, best_view(store@[i].views))
                &&& r@[i].class == classify_views(store@[i].views)
            },
        forall|i: int, j: int|
            0 <= i < j < r@.len() ==> (#[trigger] r@[i]).shard@.id != (#[trigger] r@[j]).shard@.id,
        forall|i: int| 0 <= i < r@.len() ==> shard_input_wf(#[trigger] r@[i]),
{
    let ghost sm = store@;
    let mut r: Vec<ResolvedShard> = Vec::new();
    let mut i: usize = 0;
    while i < store.entries.len()
        invariant
            i <= store@.len(),
            sm == store@,
            store_wf(sm),
            store@.len() == store.entries@.len(),
            r@.len() == i,
            forall|k: int|
                #![trigger r@[k]]
                0 <= k < i ==> {
                    &&& r@[k].shard@.id == sm[k].shard_id
                    &&& r@[k].shard@.views == sm[k].views
                    &&& resolved_matches(r@[k].shard@, best_view(sm[k].views))
                    &&& r@[k].class == classify_views(sm[k].views)
                },
        decreases store.entries@.len() - i,
    {
        let entry = &store.entries[i];
        let ghost e = sm[i as int];
        let mut vs: Vec<ReplicaView> = Vec::new();
        let mut j: usize = 0;
        while j < entry.views.len()
            invariant
                j <= entry.views@.len(),
                e.views.len() == entry.views@.len(),
                forall|k: int|
                    0 <= k < e.views.len() ==> (#[trigger] e.views[k]) == entry.views@[k]@,
                vs@.len() == j,
                forall|k: int| 0 <= k < j ==> (#[trigger] vs@[k])@ == e.views[k],
                forall|k: int| 0 <= k < j ==> (#[trigger] vs@[k]).shard_id == entry.views@[k].shard_id,
            decreases entry.views@.len() - j,
        {
            let c = crate::model::clone_view(&entry.views[j]);
            vs.push(c);
            j = j + 1;
        }
        proof {
            assert(models(vs@) =~= e.views);
            assert(entry@ == e);
            assert(forall|k: int|
                0 <= k < vs@.len() ==> (#[trigger] vs@[k]).shard_id == e.shard_id) by {
                assert(forall|k: int|
                    0 <= k < e.views.len() ==> (#[trigger] e.views[k]).shard_id == e.shard_id);
            }
        }
        let rs = resolve(entry.shard_id, vs);
        r.push(rs);
        proof {
            assert(r@[i as int].shard@.views == e.views);
        }
        i = i + 1;
    }
    proof {
        assert forall|a: int, b: int| 0 <= a < b < r@.len() implies (#[trigger] r@[a]).shard@.id
            != (#[trigger] r@[b]).shard@.id by {
            assert(sm[a].shard_id < sm[b].shard_id);
        }
        assert forall|k: int| 0 <= k < r@.len() implies shard_input_wf(#[trigger] r@[k]) by {
            assert(entry_wf(sm[k]));
            assert(r@[k].shard@.views == sm[k].views);
        }
    }
    r
}

} // verus!
