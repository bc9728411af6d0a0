//! Ordering and deduplication facts about sequences of row and document
//! ids, shared by the address-space index and the value stores.

use vstd::prelude::*;

verus! {

/// The sequence is strictly ascending.
pub open spec fn sorted_strict(s: Seq<u32>) -> bool {
    forall|i: int, j: int| 0 <= i < j < s.len() ==> s[i] < s[j]
}

/// The sequence is ascending, with equal neighbours allowed.
pub open spec fn sorted_nondecr(s: Seq<u32>) -> bool {
    forall|i: int, j: int| 0 <= i < j < s.len() ==> s[i] <= s[j]
}

/// The sequence with every run of equal adjacent elements collapsed to one.
pub open spec fn dedup_adjacent(s: Seq<u32>) -> Seq<u32>
    decreases s.len(),
{
    if s.len() == 0 {
        s
    } else {
        let prefix = dedup_adjacent(s.drop_last());
        if s.len() >= 2 && s[s.len() - 1] == s[s.len() - 2] {
            prefix
        } else {
            prefix.push(s.last())
        }
    }
}

/// Collapsing adjacent duplicates of an ascending sequence yields a strictly
/// ascending sequence with exactly the same elements, ending where the input
/// ends.
pub proof fn lemma_dedup_adjacent_props(s: Seq<u32>)
    requires
        sorted_nondecr(s),
    ensures
        sorted_strict(dedup_adjacent(s)),
        forall|x: u32| dedup_adjacent(s).contains(x) <==> s.contains(x),
        s.len() > 0 ==> dedup_adjacent(s).len() > 0 && dedup_adjacent(s).last() == s.last(),
    decreases s.len(),
{
    if s.len() == 0 {
    } else {
        let head = s.drop_last();
        assert(sorted_nondecr(head));
        lemma_dedup_adjacent_props(head);
        let d = dedup_adjacent(s);
        let dh = dedup_adjacent(head);
        if s.len() >= 2 && s[s.len() - 1] == s[s.len() - 2] {
            assert(d == dh);
            assert(head.len() > 0);
            assert forall|x: u32| d.contains(x) implies s.contains(x) by {
                assert(head.contains(x));
                let i = choose|i: int| 0 <= i < head.len() && head[i] == x;
                assert(s[i] == x);
            }
            assert forall|x: u32| s.contains(x) implies d.contains(x) by {
                let i = choose|i: int| 0 <= i < s.len() && s[i] == x;
                if i == s.len() - 1 {
                    assert(head[s.len() - 2] == x);
                    assert(head.contains(x));
                } else {
                    assert(head[i] == x);
                    assert(head.contains(x));
                }
            }
        } else {
            assert(d == dh.push(s.last()));
            // Every element of the deduplicated prefix sits strictly below
            // the appended last element, so the result stays strictly sorted.
            assert forall|k: int| 0 <= k < dh.len() implies dh[k] < s.last() by {
                assert(dh.contains(dh[k]));
                assert(head.contains(dh[k]));
                let i = choose|i: int| 0 <= i < head.len() && head[i] == dh[k];
                if s.len() >= 2 {
                    assert(head[i] <= head[head.len() - 1]);
                    assert(s[s.len() - 2] < s[s.len() - 1]);
                }
            }
            assert(sorted_strict(d)) by {
                assert forall|i: int, j: int| 0 <= i < j < d.len() implies d[i] < d[j] by {
                    if j < d.len() - 1 {
                        assert(dh[i] < dh[j]);
                    } else {
                        assert(d[j] == s.last());
                        assert(dh[i] < s.last());
                    }
                }
            }
            assert forall|x: u32| d.contains(x) implies s.contains(x) by {
                let k = choose|k: int| 0 <= k < d.len() && d[k] == x;
                if k == d.len() - 1 {
                    assert(s[s.len() - 1] == x);
                } else {
                    assert(dh.contains(x));
                    assert(head.contains(x));
                    let i = choose|i: int| 0 <= i < head.len() && head[i] == x;
                    assert(s[i] == x);
                }
            }
            assert forall|x: u32| s.contains(x) implies d.contains(x) by {
                let i = choose|i: int| 0 <= i < s.len() && s[i] == x;
                if i == s.len() - 1 {
                    assert(d[d.len() - 1] == x);
                } else {
                    assert(head[i] == x);
                    assert(head.contains(x));
                    assert(dh.contains(x));
                    let k = choose|k: int| 0 <= k < dh.len() && dh[k] == x;
                    assert(d[k] == x);
                }
            }
        }
    }
}

} // verus!
