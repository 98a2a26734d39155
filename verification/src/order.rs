//! Sorted, duplicate-free sequences of identifiers.
use vstd::prelude::*;

verus! {

/// The sequence strictly increases.
pub open spec fn increasing(s: Seq<u64>) -> bool {
    forall|i: int, j: int| 0 <= i < j < s.len() ==> s[i] < s[j]
}

/// Puts `x` into an increasing vector, unless it is there already.
fn insert_sorted(v: &mut Vec<u64>, x: u64)
    requires
        increasing(old(v)@),
    ensures
        increasing(final(v)@),
        final(v)@.to_set() == old(v)@.to_set().insert(x),
{
    let ghost before = v@;
    let mut i: usize = 0;
    while i < v.len() && v[i] < x
        invariant
            v@ == before,
            i <= v@.len(),
            forall|k: int| 0 <= k < i ==> v@[k] < x,
        decreases v@.len() - i,
    {
        i += 1;
    }
    if i < v.len() && v[i] == x {
        assert(before.to_set().insert(x) =~= before.to_set()) by {
            assert(before[i as int] == x);
        }
    } else {
        v.insert(i, x);
        proof {
            let after = v@;
            assert(after =~= before.insert(i as int, x));
            assert forall|y: u64| after.to_set().contains(y) <==> before.to_set().insert(x).contains(
                y,
            ) by {
                if before.contains(y) {
                    let k = before.index_of(y);
                    if k < i {
                        assert(after[k] == y);
                    } else {
                        assert(after[k + 1] == y);
                    }
                }
                if y == x {
                    assert(after[i as int] == x);
                }
                if after.contains(y) {
                    let k = after.index_of(y);
                    if k < i {
                        assert(before[k] == y);
                    } else if k > i {
                        assert(before[k - 1] == y);
                    }
                }
            }
            assert(after.to_set() =~= before.to_set().insert(x));
        }
    }
}

/// The values of `v` in increasing order, each once.
pub fn sort_dedup(v: Vec<u64>) -> (r: Vec<u64>)
    ensures
        increasing(r@),
        r@.to_set() == v@.to_set(),
{
    let mut r: Vec<u64> = Vec::new();
    let mut i: usize = 0;
    assert(v@.take(0).to_set() =~= Set::empty());
    assert(r@.to_set() =~= Set::empty());
    while i < v.len()
        invariant
            i <= v@.len(),
            increasing(r@),
            r@.to_set() == v@.take(i as int).to_set(),
        decreases v@.len() - i,
    {
        let ghost seen = v@.take(i as int);
        insert_sorted(&mut r, v[i]);
        i += 1;
        proof {
            let next = v@.take(i as int);
            let x = v@[i - 1];
            assert(next =~= seen.push(x));
            assert forall|y: u64| next.to_set().contains(y) <==> seen.to_set().insert(x).contains(y) by {
                if seen.contains(y) {
                    let k = seen.index_of(y);
                    assert(next[k] == y);
                }
                if y == x {
                    assert(next[i - 1] == y);
                }
            }
            assert(next.to_set() =~= seen.to_set().insert(x));
        }
    }
    assert(v@.take(v@.len() as int) =~= v@);
    r
}

/// A sequence of distinct numbers below `n` has at most `n` entries.
pub proof fn lemma_distinct_below(s: Seq<int>, n: int)
    requires
        0 <= n,
        s.no_duplicates(),
        forall|i: int| 0 <= i < s.len() ==> 0 <= #[trigger] s[i] < n,
    ensures
        s.len() <= n,
{
    let all = vstd::set_lib::set_int_range(0, n);
    vstd::set_lib::lemma_int_range(0, n);
    s.unique_seq_to_set();
    assert(s.to_set().subset_of(all));
    vstd::set_lib::lemma_len_subset(s.to_set(), all);
}

} // verus!
