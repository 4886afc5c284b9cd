//! Ordering the resolved shards by start key, ahead of the continuity
//! walk: an insertion sort that provably keeps exactly the same records.

use vstd::prelude::*;
use crate::continuity::{shard_models, sorted_by_start};
use crate::model::{HealthClass, ResolvedShard, ShardModel};
use crate::order::{key_cmp, key_le, lemma_lex_u8_flip, lemma_lex_u8_trans};

verus! {

/// The full content of a resolved shard: record and health grade.
pub open spec fn resolved_model(r: ResolvedShard) -> (ShardModel, HealthClass) {
    (r.shard@, r.class)
}

/// The contents of a resolved sequence, order forgotten.
pub open spec fn resolved_contents(s: Seq<ResolvedShard>) -> vstd::multiset::Multiset<
    (ShardModel, HealthClass),
> {
    s.map_values(|r: ResolvedShard| resolved_model(r)).to_multiset()
}

/// Sorts the resolved shards by start key, keeping exactly the same
/// records and grades.
pub fn sort_resolved_by_start(v: Vec<ResolvedShard>) -> (r: Vec<ResolvedShard>)
    ensures
        sorted_by_start(shard_models(r@)),
        resolved_contents(r@) == resolved_contents(v@),
{
    let mut src = v;
    let ghost all = resolved_contents(src@);
    let mut r: Vec<ResolvedShard> = Vec::new();
    proof {
        broadcast use vstd::multiset::group_multiset_axioms;

        let rm = |x: ResolvedShard| resolved_model(x);
        r@.map_values(rm).to_multiset_ensures();
        assert forall|y: (ShardModel, HealthClass)|
            r@.map_values(rm).to_multiset().count(y) == 0 by {
            if r@.map_values(rm).to_multiset().count(y) > 0 {
                assert(r@.map_values(rm).contains(y));
            }
        }
        assert(resolved_contents(r@).add(resolved_contents(src@)) =~= all);
    }
    while src.len() > 0
        invariant
            sorted_by_start(shard_models(r@)),
            resolved_contents(r@).add(resolved_contents(src@)) == all,
        decreases src@.len(),
    {
        let ghost src0 = src@;
        let ghost r0 = r@;
        let x = src.remove(0);
        proof {
            broadcast use vstd::multiset::group_multiset_axioms;

            let rm = |y: ResolvedShard| resolved_model(y);
            src0.map_values(rm).to_multiset_ensures();
            assert(src0.map_values(rm).contains(rm(x))) by {
                assert(src0.map_values(rm)[0] == rm(src0[0]));
            }
            assert(src@.map_values(rm) =~= src0.map_values(rm).remove(0));
            assert(src0.map_values(rm).remove(0).to_multiset() =~= src0.map_values(
                rm,
            ).to_multiset().remove(src0.map_values(rm)[0]));
            assert(resolved_contents(src@) == resolved_contents(src0).remove(rm(x)));
        }
        let mut p: usize = 0;
        while p < r.len() && key_cmp(&r[p].shard.start_key, &x.shard.start_key) <= 0
            invariant
                p <= r@.len(),
                r@ == r0,
                forall|k: int|
                    0 <= k < p ==> key_le(
                        #[trigger] shard_models(r@)[k].start_key,
                        x.shard@.start_key,
                    ),
            decreases r@.len() - p,
        {
            p = p + 1;
        }
        proof {
            if p < r0.len() {
                lemma_lex_u8_flip(shard_models(r0)[p as int].start_key, x.shard@.start_key);
            }
        }
        r.insert(p, x);
        proof {
            broadcast use vstd::multiset::group_multiset_axioms;

            let rm = |y: ResolvedShard| resolved_model(y);
            r0.insert_ensures(p as int, x);
            let sm0 = shard_models(r0);
            let sm1 = shard_models(r@);
            assert forall|a: int, b: int|
                0 <= a < b < sm1.len() implies key_le(
                #[trigger] sm1[a].start_key,
                #[trigger] sm1[b].start_key,
            ) by {
                let pi = p as int;
                let xs = x.shard@.start_key;
                if a < pi && b < pi {
                    assert(sm1[a] == sm0[a] && sm1[b] == sm0[b]);
                } else if a < pi && b == pi {
                    assert(sm1[a] == sm0[a]);
                } else if a < pi {
                    assert(sm1[a] == sm0[a]);
                    assert(r@[(b - 1) + 1] == r0[b - 1]);
                    assert(sm1[b] == sm0[b - 1]);
                    if b - 1 == pi {
                        assert(key_le(xs, sm0[pi].start_key));
                        lemma_lex_u8_trans(sm0[a].start_key, xs, sm0[b - 1].start_key);
                    }
                } else if a == pi {
                    assert(sm1[a].start_key == xs);
                    assert(r@[(b - 1) + 1] == r0[b - 1]);
                    assert(sm1[b] == sm0[b - 1]);
                    assert(key_le(xs, sm0[pi].start_key));
                    if b - 1 > pi {
                        lemma_lex_u8_trans(xs, sm0[pi].start_key, sm0[b - 1].start_key);
                    }
                } else {
                    assert(r@[(a - 1) + 1] == r0[a - 1]);
                    assert(r@[(b - 1) + 1] == r0[b - 1]);
                    assert(sm1[a] == sm0[a - 1] && sm1[b] == sm0[b - 1]);
                }
            }
            assert(r@.map_values(rm).to_multiset() =~= r0.map_values(rm).to_multiset().insert(
                rm(x),
            )) by {
                r0.take(p as int).map_values(rm).to_multiset_ensures();
                assert(r@.map_values(rm) =~= r0.take(p as int).map_values(rm).push(rm(x))
                    + r0.skip(p as int).map_values(rm));
                vstd::seq_lib::lemma_multiset_commutative(
                    r0.take(p as int).map_values(rm).push(rm(x)),
                    r0.skip(p as int).map_values(rm),
                );
                vstd::seq_lib::lemma_multiset_commutative(
                    r0.take(p as int).map_values(rm),
                    r0.skip(p as int).map_values(rm),
                );
                assert(r0.take(p as int).map_values(rm).push(rm(x)).to_multiset() =~= r0.take(
                    p as int,
                ).map_values(rm).to_multiset().insert(rm(x)));
                assert(r0.take(p as int).map_values(rm) + r0.skip(p as int).map_values(rm)
                    =~= r0.map_values(rm));
            }
            assert(resolved_contents(r@).add(resolved_contents(src@)) =~= all);
        }
    }
    proof {
        broadcast use vstd::multiset::group_multiset_axioms;

        let rm = |y: ResolvedShard| resolved_model(y);
        src@.map_values(rm).to_multiset_ensures();
        assert(src@.map_values(rm) =~= Seq::<(ShardModel, HealthClass)>::empty());
        assert forall|y: (ShardModel, HealthClass)|
            src@.map_values(rm).to_multiset().count(y) == 0 by {
            if src@.map_values(rm).to_multiset().count(y) > 0 {
                assert(src@.map_values(rm).contains(y));
            }
        }
        assert(resolved_contents(r@) =~= all);
    }
    r
}

} // verus!
