//! Small helpers for maintaining sorted, duplicate-free vectors.  Jump
//! target lists and stack-height sets are required to be strictly
//! increasing so that emitted output is deterministic.

use vstd::prelude::*;
use crate::word::W256;

verus! {

/// A strictly increasing sequence of numbers (sorted and duplicate free).
pub open spec fn strictly_increasing(s: Seq<usize>) -> bool {
    forall|i: int, j: int| 0 <= i < j < s.len() ==> s[i] < s[j]
}

/// A sequence of words strictly increasing by value.
pub open spec fn strictly_increasing_words(s: Seq<W256>) -> bool {
    forall|i: int, j: int| 0 <= i < j < s.len() ==> s[i].value() < s[j].value()
}

/// Insert `x` into a sorted duplicate-free vector, keeping it sorted
/// and duplicate free.
pub fn insert_unique_usize(v: &mut Vec<usize>, x: usize)
    requires
        strictly_increasing(old(v)@),
    ensures
        strictly_increasing(final(v)@),
        forall|y: usize| final(v)@.contains(y) <==> (old(v)@.contains(y) || y == x),
{
    let ghost orig = v@;
    let mut i: usize = 0;
    while i < v.len() && v[i] < x
        invariant
            v@ == orig,
            strictly_increasing(orig),
            i <= v@.len(),
            forall|k: int| 0 <= k < i ==> orig[k] < x,
        decreases v@.len() - i,
    {
        i += 1;
    }
    if i < v.len() && v[i] == x {
        assert(v@[i as int] == x);
        assert(v@.contains(x));
        return ;
    }
    v.insert(i, x);
    assert forall|p: int, q: int| 0 <= p < q < v@.len() implies v@[p] < v@[q] by {
        if p < i && q > i {
            assert(orig[p] == v@[p] && orig[q - 1] == v@[q]);
        }
        if q == i {
            assert(v@[p] == orig[p]);
        }
        if p == i && q > i {
            assert(v@[q] == orig[q - 1]);
            assert(i < orig.len() ==> x < orig[i as int]);
        }
    }
    assert forall|y: usize| final(v)@.contains(y) implies (orig.contains(y) || y == x) by {
        let k = choose|k: int| 0 <= k < v@.len() && v@[k] == y;
        if k < i {
            assert(orig[k] == y);
        } else if k > i {
            assert(orig[k - 1] == y);
        }
    }
    assert forall|y: usize| orig.contains(y) || y == x implies final(v)@.contains(y) by {
        if y == x {
            assert(v@[i as int] == x);
            assert(v@.contains(y));
        } else {
            let k = choose|k: int| 0 <= k < orig.len() && orig[k] == y;
            if k < i {
                assert(v@[k] == y);
                assert(v@.contains(y));
            } else {
                assert(v@[k + 1] == y);
                assert(v@.contains(y));
            }
        }
    }
}

/// Insert `x` into a vector of words sorted by value, keeping it
/// sorted and duplicate free.
pub fn insert_unique_word(v: &mut Vec<W256>, x: W256)
    requires
        strictly_increasing_words(old(v)@),
    ensures
        strictly_increasing_words(final(v)@),
        forall|y: W256| final(v)@.contains(y) ==> (old(v)@.contains(y) || y == x),
        forall|y: W256| old(v)@.contains(y) ==> final(v)@.contains(y),
        final(v)@.contains(x),
    {
    let ghost orig = v@;
    let mut i: usize = 0;
    while i < v.len() && v[i].lt(&x)
        invariant
            v@ == orig,
            strictly_increasing_words(orig),
            i <= v@.len(),
            forall|k: int| 0 <= k < i ==> orig[k].value() < x.value(),
        decreases v@.len() - i,
    {
        i += 1;
    }
    if i < v.len() && !x.lt(&v[i]) {
        // Neither smaller nor larger: same value, already present.
        proof {
            crate::word::lemma_value_injective(v@[i as int], x);
        }
        assert(v@[i as int] == x);
        assert(v@.contains(x));
        return ;
    }
    v.insert(i, x);
    assert forall|p: int, q: int| 0 <= p < q < v@.len() implies v@[p].value() < v@[q].value() by {
        if p < i && q > i {
            assert(orig[p] == v@[p] && orig[q - 1] == v@[q]);
        }
        if q == i {
            assert(v@[p] == orig[p]);
        }
        if p == i && q > i {
            assert(v@[q] == orig[q - 1]);
            assert(i < orig.len() ==> x.value() < orig[i as int].value());
        }
    }
    assert forall|y: W256| final(v)@.contains(y) implies (orig.contains(y) || y == x) by {
        let k = choose|k: int| 0 <= k < v@.len() && v@[k] == y;
        if k < i {
            assert(orig[k] == y);
            assert(orig.contains(y));
        } else if k > i {
            assert(orig[k - 1] == y);
            assert(orig.contains(y));
        }
    }
    assert(v@[i as int] == x);
    assert(v@.contains(x));
    assert forall|y: W256| orig.contains(y) || y == x implies final(v)@.contains(y) by {
        if y == x {
            assert(v@[i as int] == x);
            assert(v@.contains(y));
        } else {
            let k = choose|k: int| 0 <= k < orig.len() && orig[k] == y;
            if k < i {
                assert(v@[k] == y);
                assert(v@.contains(y));
            } else {
                assert(v@[k + 1] == y);
                assert(v@.contains(y));
            }
        }
    }
}

} // verus!
