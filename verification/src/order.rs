//! Three-way lexicographic comparisons for byte-string keys and for
//! member-identifier lists, with the order lemmas the rest of the crate
//! builds on.

use vstd::prelude::*;

verus! {

/// Lexicographic three-way comparison of byte strings; returns -1, 0 or 1.
pub open spec fn lex_cmp_u8(a: Seq<u8>, b: Seq<u8>) -> int
    decreases a.len(),
{
    if a.len() == 0 && b.len() == 0 {
        0
    } else if a.len() == 0 {
        -1
    } else if b.len() == 0 {
        1
    } else if a[0] < b[0] {
        -1
    } else if a[0] > b[0] {
        1
    } else {
        lex_cmp_u8(a.drop_first(), b.drop_first())
    }
}

/// Lexicographic three-way comparison of identifier lists; returns -1, 0 or 1.
pub open spec fn lex_cmp_u64(a: Seq<u64>, b: Seq<u64>) -> int
    decreases a.len(),
{
    if a.len() == 0 && b.len() == 0 {
        0
    } else if a.len() == 0 {
        -1
    } else if b.len() == 0 {
        1
    } else if a[0] < b[0] {
        -1
    } else if a[0] > b[0] {
        1
    } else {
        lex_cmp_u64(a.drop_first(), b.drop_first())
    }
}

/// `a` comes no later than `b` in key order.
pub open spec fn key_le(a: Seq<u8>, b: Seq<u8>) -> bool {
    lex_cmp_u8(a, b) <= 0
}

/// `a` comes strictly before `b` in key order.
pub open spec fn key_lt(a: Seq<u8>, b: Seq<u8>) -> bool {
    lex_cmp_u8(a, b) < 0
}

pub proof fn lemma_lex_u8_range(a: Seq<u8>, b: Seq<u8>)
    ensures
        -1 <= lex_cmp_u8(a, b) <= 1,
    decreases a.len(),
{
    if a.len() != 0 && b.len() != 0 && a[0] == b[0] {
        lemma_lex_u8_range(a.drop_first(), b.drop_first());
    }
}

pub proof fn lemma_lex_u8_eq(a: Seq<u8>, b: Seq<u8>)
    ensures
        lex_cmp_u8(a, b) == 0 <==> a == b,
    decreases a.len(),
{
    if a.len() == 0 && b.len() == 0 {
        assert(a =~= b);
    } else if a.len() != 0 && b.len() != 0 && a[0] == b[0] {
        lemma_lex_u8_eq(a.drop_first(), b.drop_first());
        if lex_cmp_u8(a, b) == 0 {
            assert(a.drop_first() == b.drop_first());
            assert forall|i: int| 0 <= i < a.len() implies a[i] == b[i] by {
                if i >= 1 {
                    assert(a.drop_first()[i - 1] == b.drop_first()[i - 1]);
                }
            }
            assert(a =~= b);
        }
    }
}

pub proof fn lemma_lex_u8_flip(a: Seq<u8>, b: Seq<u8>)
    ensures
        lex_cmp_u8(b, a) == -lex_cmp_u8(a, b),
    decreases a.len(),
{
    if a.len() != 0 && b.len() != 0 && a[0] == b[0] {
        lemma_lex_u8_flip(a.drop_first(), b.drop_first());
    }
}

pub proof fn lemma_lex_u8_trans(a: Seq<u8>, b: Seq<u8>, c: Seq<u8>)
    requires
        lex_cmp_u8(a, b) <= 0,
        lex_cmp_u8(b, c) <= 0,
    ensures
        lex_cmp_u8(a, c) <= 0,
    decreases a.len() + b.len() + c.len(),
{
    if a.len() == 0 {
        // lex_cmp_u8(a, c) is 0 or -1.
    } else {
        // a nonempty forces b and c nonempty.
        assert(b.len() != 0);
        assert(c.len() != 0);
        if a[0] == b[0] && b[0] == c[0] {
            lemma_lex_u8_trans(a.drop_first(), b.drop_first(), c.drop_first());
        } else {
            assert(a[0] <= b[0] && b[0] <= c[0]);
            assert(a[0] < c[0]);
        }
    }
}

pub proof fn lemma_lex_u64_range(a: Seq<u64>, b: Seq<u64>)
    ensures
        -1 <= lex_cmp_u64(a, b) <= 1,
    decreases a.len(),
{
    if a.len() != 0 && b.len() != 0 && a[0] == b[0] {
        lemma_lex_u64_range(a.drop_first(), b.drop_first());
    }
}

pub proof fn lemma_lex_u64_eq(a: Seq<u64>, b: Seq<u64>)
    ensures
        lex_cmp_u64(a, b) == 0 <==> a == b,
    decreases a.len(),
{
    if a.len() == 0 && b.len() == 0 {
        assert(a =~= b);
    } else if a.len() != 0 && b.len() != 0 && a[0] == b[0] {
        lemma_lex_u64_eq(a.drop_first(), b.drop_first());
        if lex_cmp_u64(a, b) == 0 {
            assert(a.drop_first() == b.drop_first());
            assert forall|i: int| 0 <= i < a.len() implies a[i] == b[i] by {
                if i >= 1 {
                    assert(a.drop_first()[i - 1] == b.drop_first()[i - 1]);
                }
            }
            assert(a =~= b);
        }
    }
}

pub proof fn lemma_lex_u64_flip(a: Seq<u64>, b: Seq<u64>)
    ensures
        lex_cmp_u64(b, a) == -lex_cmp_u64(a, b),
    decreases a.len(),
{
    if a.len() != 0 && b.len() != 0 && a[0] == b[0] {
        lemma_lex_u64_flip(a.drop_first(), b.drop_first());
    }
}

pub proof fn lemma_lex_u64_trans(a: Seq<u64>, b: Seq<u64>, c: Seq<u64>)
    requires
        lex_cmp_u64(a, b) <= 0,
        lex_cmp_u64(b, c) <= 0,
    ensures
        lex_cmp_u64(a, c) <= 0,
    decreases a.len() + b.len() + c.len(),
{
    if a.len() == 0 {
    } else {
        assert(b.len() != 0);
        assert(c.len() != 0);
        if a[0] == b[0] && b[0] == c[0] {
            lemma_lex_u64_trans(a.drop_first(), b.drop_first(), c.drop_first());
        } else {
            assert(a[0] <= b[0] && b[0] <= c[0]);
            assert(a[0] < c[0]);
        }
    }
}

/// Compares two keys lexicographically, byte by byte; a proper prefix comes
/// first.
pub fn key_cmp(a: &Vec<u8>, b: &Vec<u8>) -> (r: i8)
    ensures
        r as int == lex_cmp_u8(a@, b@),
{
    let an: usize = a.len();
    let bn: usize = b.len();
    let n: usize = if an < bn { an } else { bn };
    let mut i: usize = 0;
    proof {
        assert(a@.skip(0) =~= a@);
        assert(b@.skip(0) =~= b@);
    }
    while i < n
        invariant
            i <= n,
            n <= a@.len(),
            n <= b@.len(),
            n == if a@.len() < b@.len() { a@.len() } else { b@.len() },
            lex_cmp_u8(a@, b@) == lex_cmp_u8(a@.skip(i as int), b@.skip(i as int)),
        decreases n - i,
    {
        let x = a[i];
        let y = b[i];
        proof {
            assert(a@.skip(i as int).len() > 0);
            assert(b@.skip(i as int).len() > 0);
            assert(a@.skip(i as int)[0] == a@[i as int]);
            assert(b@.skip(i as int)[0] == b@[i as int]);
        }
        if x < y {
            return -1;
        }
        if x > y {
            return 1;
        }
        proof {
            assert(a@.skip(i as int).drop_first() =~= a@.skip(i as int + 1));
            assert(b@.skip(i as int).drop_first() =~= b@.skip(i as int + 1));
        }
        i = i + 1;
    }
    proof {
        if a@.len() < b@.len() {
            assert(a@.skip(i as int).len() == 0);
            assert(b@.skip(i as int).len() > 0);
        } else if a@.len() > b@.len() {
            assert(b@.skip(i as int).len() == 0);
            assert(a@.skip(i as int).len() > 0);
        } else {
            assert(a@.skip(i as int).len() == 0);
            assert(b@.skip(i as int).len() == 0);
        }
    }
    if an < bn {
        -1
    } else if an > bn {
        1
    } else {
        0
    }
}

/// Compares two identifier lists lexicographically.
pub fn members_cmp(a: &Vec<u64>, b: &Vec<u64>) -> (r: i8)
    ensures
        r as int == lex_cmp_u64(a@, b@),
{
    let an: usize = a.len();
    let bn: usize = b.len();
    let n: usize = if an < bn { an } else { bn };
    let mut i: usize = 0;
    proof {
        assert(a@.skip(0) =~= a@);
        assert(b@.skip(0) =~= b@);
    }
    while i < n
        invariant
            i <= n,
            n <= a@.len(),
            n <= b@.len(),
            n == if a@.len() < b@.len() { a@.len() } else { b@.len() },
            lex_cmp_u64(a@, b@) == lex_cmp_u64(a@.skip(i as int), b@.skip(i as int)),
        decreases n - i,
    {
        let x = a[i];
        let y = b[i];
        proof {
            assert(a@.skip(i as int).len() > 0);
            assert(b@.skip(i as int).len() > 0);
            assert(a@.skip(i as int)[0] == a@[i as int]);
            assert(b@.skip(i as int)[0] == b@[i as int]);
        }
        if x < y {
            return -1;
        }
        if x > y {
            return 1;
        }
        proof {
            assert(a@.skip(i as int).drop_first() =~= a@.skip(i as int + 1));
            assert(b@.skip(i as int).drop_first() =~= b@.skip(i as int + 1));
        }
        i = i + 1;
    }
    proof {
        if a@.len() < b@.len() {
            assert(a@.skip(i as int).len() == 0);
            assert(b@.skip(i as int).len() > 0);
        } else if a@.len() > b@.len() {
            assert(b@.skip(i as int).len() == 0);
            assert(a@.skip(i as int).len() > 0);
        } else {
            assert(a@.skip(i as int).len() == 0);
            assert(b@.skip(i as int).len() == 0);
        }
    }
    if an < bn {
        -1
    } else if an > bn {
        1
    } else {
        0
    }
}

} // verus!
