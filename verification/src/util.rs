//! Small verified utilities: decimal rendering of identifier lists for the
//! plan emitter, and the multiset equality check behind the synthesizer's
//! self-audit.

use vstd::prelude::*;
use crate::model::clone_members;

verus! {

/// The decimal digits of `n`, as ASCII bytes, most significant first.
pub open spec fn dec_bytes(n: nat) -> Seq<u8>
    decreases n,
{
    if n < 10 {
        seq![(n + 0x30) as u8]
    } else {
        dec_bytes(n / 10) + seq![(n % 10 + 0x30) as u8]
    }
}

/// The decimal renderings of the identifiers, joined with commas.
pub open spec fn joined_dec(v: Seq<u64>) -> Seq<u8>
    decreases v.len(),
{
    if v.len() == 0 {
        Seq::empty()
    } else if v.len() == 1 {
        dec_bytes(v[0] as nat)
    } else {
        joined_dec(v.drop_last()) + seq![0x2cu8] + dec_bytes(v.last() as nat)
    }
}

pub proof fn lemma_dec_bytes_ascii(n: nat)
    ensures
        forall|k: int| 0 <= k < dec_bytes(n).len() ==> 0x30 <= #[trigger] dec_bytes(n)[k] < 0x3a,
    decreases n,
{
    if n >= 10 {
        lemma_dec_bytes_ascii(n / 10);
        assert forall|k: int| 0 <= k < dec_bytes(n).len() implies 0x30 <= #[trigger] dec_bytes(
            n,
        )[k] < 0x3a by {
            if k < dec_bytes(n / 10).len() {
                assert(dec_bytes(n)[k] == dec_bytes(n / 10)[k]);
            }
        }
    }
}

/// Appends the decimal digits of `n`.
fn push_dec_bytes(out: &mut Vec<u8>, n: u64)
    ensures
        final(out)@ == old(out)@ + dec_bytes(n as nat),
{
    let ghost out0 = out@;
    let mut tmp: Vec<u8> = Vec::new();
    let mut x: u64 = n;
    let mut more = true;
    proof {
        assert(tmp@.reverse() =~= Seq::<u8>::empty());
        assert(dec_bytes(n as nat) =~= dec_bytes(x as nat) + tmp@.reverse());
    }
    while more
        invariant
            more ==> dec_bytes(n as nat) == dec_bytes(x as nat) + tmp@.reverse(),
            !more ==> dec_bytes(n as nat) == tmp@.reverse(),
        decreases (if more { 1int } else { 0int }), x,
    {
        let d: u8 = (x % 10) as u8 + 0x30;
        let ghost t0 = tmp@;
        tmp.push(d);
        proof {
            assert(tmp@.reverse() =~= seq![d] + t0.reverse());
            if x < 10 {
                assert(dec_bytes(x as nat) == seq![d]);
                assert(dec_bytes(x as nat) + t0.reverse() =~= tmp@.reverse());
            } else {
                assert(dec_bytes(x as nat) == dec_bytes((x as nat) / 10) + seq![d]);
                assert(dec_bytes((x as nat) / 10) + tmp@.reverse() =~= dec_bytes(x as nat)
                    + t0.reverse());
                assert((x / 10) as nat == (x as nat) / 10);
            }
        }
        if x < 10 {
            more = false;
        } else {
            x = x / 10;
        }
    }
    let mut k: usize = tmp.len();
    proof {
        assert(out@ =~= out0 + tmp@.reverse().take(0));
    }
    while k > 0
        invariant
            k <= tmp@.len(),
            dec_bytes(n as nat) == tmp@.reverse(),
            out@ == out0 + tmp@.reverse().take(tmp@.len() - k),
        decreases k,
    {
        k = k - 1;
        let ghost j = tmp@.len() - k - 1;
        out.push(tmp[k]);
        proof {
            assert(tmp@.reverse()[j] == tmp@[k as int]);
            assert(tmp@.reverse().take(j + 1) =~= tmp@.reverse().take(j).push(tmp@.reverse()[j]));
            assert(out@ =~= out0 + tmp@.reverse().take(j + 1));
        }
    }
    proof {
        assert(tmp@.reverse().take(tmp@.len() as int) =~= tmp@.reverse());
    }
}

/// Joins the identifiers as comma-separated decimal numbers, exactly as
/// they stand in the list.
pub fn vec_u64_join(v: &Vec<u64>) -> (r: String)
    ensures
        r@ == joined_dec(v@).map_values(|b: u8| b as char),
{
    let mut out: Vec<u8> = Vec::new();
    let mut i: usize = 0;
    proof {
        assert(out@ =~= joined_dec(v@.take(0)));
    }
    while i < v.len()
        invariant
            i <= v@.len(),
            out@ == joined_dec(v@.take(i as int)),
            forall|k: int| 0 <= k < out@.len() ==> #[trigger] out@[k] < 128,
        decreases v@.len() - i,
    {
        let ghost before = out@;
        if i > 0 {
            out.push(0x2c);
        }
        push_dec_bytes(&mut out, v[i]);
        proof {
            lemma_dec_bytes_ascii(v@[i as int] as nat);
            let t = v@.take(i as int + 1);
            assert(t.drop_last() =~= v@.take(i as int));
            assert(t.last() == v@[i as int]);
            if i == 0 {
                assert(out@ =~= joined_dec(t));
            } else {
                assert(out@ =~= before + seq![0x2cu8] + dec_bytes(v@[i as int] as nat));
                assert(joined_dec(t) == joined_dec(t.drop_last()) + seq![0x2cu8] + dec_bytes(
                    t.last() as nat,
                ));
                assert(out@ =~= joined_dec(t));
            }
        }
        i = i + 1;
    }
    proof {
        assert(v@.take(v@.len() as int) =~= v@);
    }
    ascii_to_string(out)
}

/// Relies on `String::from_utf8`: bytes below 128 are one character each,
/// equal to the byte's value.
#[verifier::external_body]
fn ascii_to_string(bytes: Vec<u8>) -> (r: String)
    requires
        forall|i: int| 0 <= i < bytes@.len() ==> bytes@[i] < 128,
    ensures
        r@ == bytes@.map_values(|b: u8| b as char),
{
    match String::from_utf8(bytes) {
        Ok(s) => s,
        Err(_) => String::new(),
    }
}

/// Sorts an identifier list, keeping exactly the same identifiers.
pub fn sort_u64(v: Vec<u64>) -> (r: Vec<u64>)
    ensures
        forall|i: int, j: int| 0 <= i < j < r@.len() ==> #[trigger] r@[i] <= #[trigger] r@[j],
        r@.to_multiset() == v@.to_multiset(),
{
    let mut src = v;
    let mut r: Vec<u64> = Vec::new();
    proof {
        broadcast use vstd::multiset::group_multiset_axioms;

        r@.to_multiset_ensures();
        src@.to_multiset_ensures();
        assert forall|y: u64| r@.to_multiset().count(y) == 0 by {
            if r@.to_multiset().count(y) > 0 {
                assert(r@.contains(y));
            }
        }
        assert(r@.to_multiset().add(src@.to_multiset()) =~= v@.to_multiset());
    }
    while src.len() > 0
        invariant
            forall|i: int, j: int| 0 <= i < j < r@.len() ==> #[trigger] r@[i] <= #[trigger] r@[j],
            r@.to_multiset().add(src@.to_multiset()) == v@.to_multiset(),
        decreases src@.len(),
    {
        let ghost src0 = src@;
        let ghost r0 = r@;
        let x = src.remove(0);
        proof {
            broadcast use vstd::multiset::group_multiset_axioms;

            src0.to_multiset_ensures();
            assert(src0.contains(x)) by {
                assert(src0[0] == x);
            }
            assert(src0.remove(0).to_multiset() =~= src0.to_multiset().remove(src0[0]));
            assert(src0.remove(0) =~= src@);
            assert(src@.to_multiset() == src0.to_multiset().remove(x));
        }
        let mut p: usize = 0;
        while p < r.len() && r[p] <= x
            invariant
                p <= r@.len(),
                r@ == r0,
                forall|k: int| 0 <= k < p ==> #[trigger] r@[k] <= x,
            decreases r@.len() - p,
        {
            p = p + 1;
        }
        r.insert(p, x);
        proof {
            r0.insert_ensures(p as int, x);
            assert forall|i: int, j: int| 0 <= i < j < r@.len() implies #[trigger] r@[i]
                <= #[trigger] r@[j] by {
                let pi = p as int;
                if j < pi {
                    assert(r@[i] == r0[i] && r@[j] == r0[j]);
                } else if i < pi && j == pi {
                    assert(r@[i] == r0[i] && r@[j] == x);
                } else if i < pi {
                    assert(r@[i] == r0[i]);
                    assert(r@[(j - 1) + 1] == r0[j - 1]);
                    if j - 1 == pi - 1 && pi < r0.len() {
                    }
                    if pi <= j - 1 {
                        assert(x < r0[pi] || pi >= r0.len());
                        assert(r0[pi] <= r0[j - 1] || pi == j - 1);
                    }
                } else if i == pi {
                    assert(r@[i] == x);
                    assert(r@[(j - 1) + 1] == r0[j - 1]);
                    assert(x < r0[pi] || pi >= r0.len());
                    assert(r0[pi] <= r0[j - 1] || pi == j - 1);
                } else {
                    assert(r@[(i - 1) + 1] == r0[i - 1]);
                    assert(r@[(j - 1) + 1] == r0[j - 1]);
                }
            }
            assert(r@.to_multiset() =~= r0.to_multiset().insert(x)) by {
                broadcast use vstd::multiset::group_multiset_axioms;

                r0.take(p as int).to_multiset_ensures();
                assert(r@ =~= r0.take(p as int).push(x) + r0.skip(p as int));
                vstd::seq_lib::lemma_multiset_commutative(r0.take(p as int).push(x), r0.skip(
                    p as int,
                ));
                vstd::seq_lib::lemma_multiset_commutative(r0.take(p as int), r0.skip(p as int));
                assert(r0.take(p as int).push(x).to_multiset() =~= r0.take(
                    p as int,
                ).to_multiset().insert(x));
                assert(r0.take(p as int) + r0.skip(p as int) =~= r0);
            }
            assert(r@.to_multiset().add(src@.to_multiset()) =~= v@.to_multiset()) by {
                broadcast use vstd::multiset::group_multiset_axioms;
            }
        }
    }
    proof {
        broadcast use vstd::multiset::group_multiset_axioms;

        src@.to_multiset_ensures();
        assert(src@ =~= Seq::<u64>::empty());
        assert forall|y: u64| src@.to_multiset().count(y) == 0 by {
            if src@.to_multiset().count(y) > 0 {
                assert(src@.contains(y));
            }
        }
        assert(r@.to_multiset() =~= v@.to_multiset());
    }
    r
}

/// Whether two identifier lists hold exactly the same identifiers with the
/// same multiplicities, in any order.
pub fn check_vec_eq(a: &Vec<u64>, b: &Vec<u64>) -> (r: bool)
    ensures
        r == (a@.to_multiset() == b@.to_multiset()),
{
    broadcast use vstd::seq_lib::group_to_multiset_ensures;

    let xs = sort_u64(clone_members(a));
    let ys = sort_u64(clone_members(b));
    let ghost leq = |p: u64, q: u64| p <= q;
    proof {
        assert(vstd::relations::total_ordering(leq)) by {
            assert(vstd::relations::reflexive(leq)) by {
                assert(forall|p: u64| #[trigger] leq(p, p));
            }
            assert(vstd::relations::transitive(leq)) by {
                assert(forall|p: u64, q: u64, s: u64|
                    #[trigger] leq(p, q) && #[trigger] leq(q, s) ==> leq(p, s));
            }
            assert(vstd::relations::antisymmetric(leq)) by {
                assert(forall|p: u64, q: u64|
                    #[trigger] leq(p, q) && #[trigger] leq(q, p) ==> p == q);
            }
            assert(vstd::relations::connected(leq)) by {
                assert(forall|p: u64, q: u64| #[trigger] leq(p, q) || #[trigger] leq(q, p));
            }
        }
        assert(vstd::relations::sorted_by(xs@, leq)) by {
            assert forall|i: int, j: int| 0 <= i < j < xs@.len() implies leq(xs@[i], xs@[j]) by {
                assert(xs@[i] <= xs@[j]);
            }
        }
        assert(vstd::relations::sorted_by(ys@, leq)) by {
            assert forall|i: int, j: int| 0 <= i < j < ys@.len() implies leq(ys@[i], ys@[j]) by {
                assert(ys@[i] <= ys@[j]);
            }
        }
    }
    if xs.len() != ys.len() {
        proof {
            assert(a@.to_multiset().len() == a@.len());
            assert(b@.to_multiset().len() == b@.len());
        }
        return false;
    }
    let mut i: usize = 0;
    while i < xs.len()
        invariant
            i <= xs@.len(),
            xs@.len() == ys@.len(),
            xs@.to_multiset() == a@.to_multiset(),
            ys@.to_multiset() == b@.to_multiset(),
            vstd::relations::sorted_by(xs@, leq),
            vstd::relations::sorted_by(ys@, leq),
            vstd::relations::total_ordering(leq),
            forall|k: int| 0 <= k < i ==> #[trigger] xs@[k] == ys@[k],
        decreases xs@.len() - i,
    {
        if xs[i] != ys[i] {
            proof {
                if a@.to_multiset() == b@.to_multiset() {
                    vstd::seq_lib::lemma_sorted_unique(xs@, ys@, leq);
                    assert(xs@ =~= ys@);
                }
            }
            return false;
        }
        i = i + 1;
    }
    proof {
        assert(xs@ =~= ys@);
    }
    true
}

} // verus!
