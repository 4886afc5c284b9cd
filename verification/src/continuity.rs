//! The range continuity analyzer: walks resolved shards in key order and
//! reports every gap and overlap in the key space. Purely diagnostic: it
//! never alters the resolved records or the repair plan.

use vstd::prelude::*;
use crate::model::{clone_key, ResolvedShard, ShardModel};
use crate::order::{key_cmp, key_le, key_lt, lemma_lex_u8_eq};

verus! {

/// A flaw in the tiling of the key space. `Gap { from, to }`: no shard
/// covers the keys from `from` up to `to`. `Overlap { at, prev_end }`: the
/// shard starting at `at` begins before the previous shard's end
/// `prev_end`. The empty key stands for the top of the key space in `to`
/// and `prev_end`.
#[derive(Debug, Clone, PartialEq, Eq)]
pub enum ContinuityIssue {
    Gap { from: Vec<u8>, to: Vec<u8> },
    Overlap { at: Vec<u8>, prev_end: Vec<u8> },
}

/// The mathematical value of a [`ContinuityIssue`].
#[verifier::ext_equal]
pub ghost enum IssueModel {
    Gap { from: Seq<u8>, to: Seq<u8> },
    Overlap { at: Seq<u8>, prev_end: Seq<u8> },
}

impl View for ContinuityIssue {
    type V = IssueModel;

    open spec fn view(&self) -> IssueModel {
        match self {
            ContinuityIssue::Gap { from, to } => IssueModel::Gap { from: from@, to: to@ },
            ContinuityIssue::Overlap { at, prev_end } => IssueModel::Overlap {
                at: at@,
                prev_end: prev_end@,
            },
        }
    }
}

/// The models of a sequence of issues.
pub open spec fn issue_models(s: Seq<ContinuityIssue>) -> Seq<IssueModel> {
    s.map_values(|x: ContinuityIssue| x@)
}

/// The models of the shards in a resolved sequence.
pub open spec fn shard_models(s: Seq<ResolvedShard>) -> Seq<ShardModel> {
    s.map_values(|r: ResolvedShard| r.shard@)
}

/// Resolved shards listed in key order: starts never step backwards.
pub open spec fn sorted_by_start(s: Seq<ShardModel>) -> bool {
    forall|i: int, j: int|
        0 <= i < j < s.len() ==> key_le(#[trigger] s[i].start_key, #[trigger] s[j].start_key)
}

/// The issues a walk reports over `shards` when the covered key space so
/// far ends at `prev`: a shard starting after `prev` leaves a gap, one
/// starting before `prev` overlaps, and a walk that does not end at the top
/// of the key space leaves a trailing gap.
pub open spec fn continuity_issues(shards: Seq<ShardModel>, prev: Seq<u8>) -> Seq<IssueModel>
    decreases shards.len(),
{
    if shards.len() == 0 {
        if prev.len() != 0 {
            seq![IssueModel::Gap { from: prev, to: Seq::empty() }]
        } else {
            Seq::empty()
        }
    } else {
        let s = shards[0];
        let rest = continuity_issues(shards.drop_first(), s.end_key);
        if prev == s.start_key {
            rest
        } else if key_lt(prev, s.start_key) {
            seq![IssueModel::Gap { from: prev, to: s.start_key }] + rest
        } else {
            seq![IssueModel::Overlap { at: s.start_key, prev_end: prev }] + rest
        }
    }
}

/// Walks the resolved shards in key order and reports every gap and
/// overlap, starting from the bottom of the key space.
pub fn check_continuity(shards: &Vec<ResolvedShard>) -> (r: Vec<ContinuityIssue>)
    requires
        sorted_by_start(shard_models(shards@)),
    ensures
        issue_models(r@) == continuity_issues(shard_models(shards@), Seq::empty()),
{
    let ghost sm = shard_models(shards@);
    let mut issues: Vec<ContinuityIssue> = Vec::new();
    let mut prev: Vec<u8> = Vec::new();
    let mut i: usize = 0;
    proof {
        assert(sm.skip(0) =~= sm);
        assert(issue_models(issues@) =~= Seq::<IssueModel>::empty());
        assert(prev@ =~= Seq::<u8>::empty());
    }
    while i < shards.len()
        invariant
            i <= shards@.len(),
            sm == shard_models(shards@),
            issue_models(issues@) + continuity_issues(sm.skip(i as int), prev@)
                == continuity_issues(sm, Seq::empty()),
        decreases shards@.len() - i,
    {
        let s = &shards[i].shard;
        let c: i8 = key_cmp(&prev, &s.start_key);
        proof {
            lemma_lex_u8_eq(prev@, s@.start_key);
            assert(sm.skip(i as int)[0] == sm[i as int]);
            assert(sm[i as int] == s@);
            assert(sm.skip(i as int).drop_first() =~= sm.skip(i as int + 1));
        }
        let ghost before = issue_models(issues@);
        let ghost step = continuity_issues(sm.skip(i as int), prev@);
        let ghost rest = continuity_issues(sm.skip(i as int + 1), s@.end_key);
        if c < 0 {
            let g = ContinuityIssue::Gap {
                from: clone_key(&prev),
                to: clone_key(&s.start_key),
            };
            issues.push(g);
            proof {
                assert(issue_models(issues@) =~= before.push(
                    IssueModel::Gap { from: prev@, to: s@.start_key },
                ));
                assert(step == seq![IssueModel::Gap { from: prev@, to: s@.start_key }] + rest);
                assert(issue_models(issues@) + rest =~= before + step);
            }
        } else if c > 0 {
            let o = ContinuityIssue::Overlap {
                at: clone_key(&s.start_key),
                prev_end: clone_key(&prev),
            };
            issues.push(o);
            proof {
                assert(issue_models(issues@) =~= before.push(
                    IssueModel::Overlap { at: s@.start_key, prev_end: prev@ },
                ));
                assert(step == seq![IssueModel::Overlap { at: s@.start_key, prev_end: prev@ }]
                    + rest);
                assert(issue_models(issues@) + rest =~= before + step);
            }
        } else {
            proof {
                assert(prev@ == s@.start_key);
                assert(step == rest);
            }
        }
        prev = clone_key(&s.end_key);
        i = i + 1;
    }
    proof {
        assert(sm.skip(i as int).len() == 0);
        assert(sm.skip(i as int) =~= Seq::<ShardModel>::empty());
    }
    if prev.len() > 0 {
        let ghost before = issue_models(issues@);
        let ghost pv = prev@;
        let g = ContinuityIssue::Gap { from: prev, to: Vec::new() };
        issues.push(g);
        proof {
            assert(g@ =~= IssueModel::Gap { from: pv, to: Seq::<u8>::empty() });
            assert(continuity_issues(Seq::<ShardModel>::empty(), pv) == seq![
                IssueModel::Gap { from: pv, to: Seq::<u8>::empty() },
            ]);
            assert(issue_models(issues@) =~= before + continuity_issues(
                Seq::<ShardModel>::empty(),
                pv,
            ));
        }
    } else {
        proof {
            assert(prev@ =~= Seq::<u8>::empty());
            assert(issue_models(issues@) + continuity_issues(
                Seq::<ShardModel>::empty(),
                prev@,
            ) =~= issue_models(issues@));
        }
    }
    issues
}

/// Shards whose ranges tile the key space exactly — each shard starts where
/// the one before it ends, the first starts at the bottom of the key space
/// and the last reaches its top — draw no issue at all.
pub proof fn lemma_partition_no_issues(s: Seq<ShardModel>)
    requires
        s.len() > 0 ==> s[0].start_key.len() == 0,
        forall|i: int| #![trigger s[i]] 1 <= i < s.len() ==> s[i].start_key == s[i - 1].end_key,
        s.len() > 0 ==> s[s.len() - 1].end_key.len() == 0,
    ensures
        continuity_issues(s, Seq::empty()) == Seq::<IssueModel>::empty(),
{
    if s.len() > 0 {
        assert(s[0].start_key =~= Seq::<u8>::empty());
    }
    lemma_chain_no_issues(s, Seq::empty());
}

proof fn lemma_chain_no_issues(s: Seq<ShardModel>, prev: Seq<u8>)
    requires
        s.len() == 0 ==> prev.len() == 0,
        s.len() > 0 ==> prev == s[0].start_key,
        forall|i: int| #![trigger s[i]] 1 <= i < s.len() ==> s[i].start_key == s[i - 1].end_key,
        s.len() > 0 ==> s[s.len() - 1].end_key.len() == 0,
    ensures
        continuity_issues(s, prev) == Seq::<IssueModel>::empty(),
    decreases s.len(),
{
    if s.len() == 0 {
    } else {
        let t = s.drop_first();
        assert(forall|i: int| 0 <= i < t.len() ==> #[trigger] t[i] == s[i + 1]);
        if t.len() > 0 {
            assert(t[0] == s[1]);
            assert(t[0].start_key == s[0].end_key);
            assert(t[t.len() - 1] == s[s.len() - 1]);
        }
        assert(forall|i: int| #![trigger t[i]] 1 <= i < t.len() ==> t[i].start_key == t[i - 1].end_key);
        lemma_chain_no_issues(t, s[0].end_key);
    }
}

} // verus!
