//! Counting how often a value occurs in a sequence of marks.

use vstd::prelude::*;

verus! {

/// How many entries of `s` equal `c`.
pub open spec fn tally(s: Seq<u8>, c: u8) -> nat
    decreases s.len(),
{
    if s.len() == 0 {
        0
    } else {
        tally(s.drop_last(), c) + if s.last() == c {
            1nat
        } else {
            0nat
        }
    }
}

/// No value occurs more often than there are entries.
pub proof fn lemma_tally_bound(s: Seq<u8>, c: u8)
    ensures
        tally(s, c) <= s.len(),
    decreases s.len(),
{
    if s.len() > 0 {
        lemma_tally_bound(s.drop_last(), c);
    }
}

/// Two different values share the entries between them.
pub proof fn lemma_tally_two(s: Seq<u8>, a: u8, b: u8)
    requires
        a != b,
    ensures
        tally(s, a) + tally(s, b) <= s.len(),
    decreases s.len(),
{
    if s.len() > 0 {
        lemma_tally_two(s.drop_last(), a, b);
    }
}

/// A value that does not occur counts for nothing.
pub proof fn lemma_tally_absent(s: Seq<u8>, c: u8)
    requires
        forall|i: int| 0 <= i < s.len() ==> s[i] != c,
    ensures
        tally(s, c) == 0,
    decreases s.len(),
{
    if s.len() > 0 {
        lemma_tally_absent(s.drop_last(), c);
    }
}

/// A value that occurs is counted.
pub proof fn lemma_tally_positive(s: Seq<u8>, c: u8, i: int)
    requires
        0 <= i < s.len(),
        s[i] == c,
    ensures
        tally(s, c) >= 1,
    decreases s.len(),
{
    if i < s.len() - 1 {
        lemma_tally_positive(s.drop_last(), c, i);
    }
}

/// Overwriting one entry moves one count from the old value to the new one.
pub proof fn lemma_tally_update(s: Seq<u8>, i: int, v: u8, c: u8)
    requires
        0 <= i < s.len(),
    ensures
        tally(s.update(i, v), c) == tally(s, c) - (if s[i] == c {
            1int
        } else {
            0int
        }) + (if v == c {
            1int
        } else {
            0int
        }),
    decreases s.len(),
{
    let t = s.update(i, v);
    if i == s.len() - 1 {
        assert(t.drop_last() =~= s.drop_last());
    } else {
        assert(t.drop_last() =~= s.drop_last().update(i, v));
        lemma_tally_update(s.drop_last(), i, v, c);
    }
}

} // verus!
