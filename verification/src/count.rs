use vstd::prelude::*;
use vstd::set_lib::{lemma_int_range, set_int_range};

verus! {

/// A duplicate-free sequence of integers drawn from `[lo, hi)` has at
/// most `hi - lo` elements.
pub proof fn lemma_nodup_bounded_len(s: Seq<int>, lo: int, hi: int)
    requires
        s.no_duplicates(),
        forall|i: int| 0 <= i < s.len() ==> lo <= #[trigger] s[i] < hi,
        lo <= hi,
    ensures
        s.len() <= hi - lo,
{
    s.unique_seq_to_set();
    assert forall|x: int| s.to_set().contains(x) implies set_int_range(lo, hi).contains(x) by {
        assert(s.contains(x));
        let i = choose|i: int| 0 <= i < s.len() && s[i] == x;
        assert(lo <= s[i] < hi);
    }
    lemma_int_range(lo, hi);
    vstd::set_lib::lemma_len_subset(s.to_set(), set_int_range(lo, hi));
}

/// A duplicate-free sequence of `n` integers that contains every value
/// of `1..=n` contains nothing else.
pub proof fn lemma_nodup_range_complete(s: Seq<int>, n: int)
    requires
        s.no_duplicates(),
        0 <= n,
        s.len() == n,
        forall|id: int| 1 <= id <= n ==> s.contains(id),
    ensures
        forall|i: int| 0 <= i < s.len() ==> 1 <= #[trigger] s[i] <= n,
{
    s.unique_seq_to_set();
    lemma_int_range(1, n + 1);
    assert forall|i: int| 0 <= i < s.len() implies 1 <= #[trigger] s[i] <= n by {
        if !(1 <= s[i] <= n) {
            let v = s[i];
            let r = set_int_range(1, n + 1);
            assert forall|x: int| r.insert(v).contains(x) implies s.to_set().contains(x) by {
                if x == v {
                    assert(s.contains(v));
                } else {
                    assert(1 <= x <= n);
                    assert(s.contains(x));
                }
            }
            assert(!r.contains(v));
            assert(r.insert(v).len() == n + 1);
            vstd::set_lib::lemma_len_subset(r.insert(v), s.to_set());
            assert(false);
        }
    }
}

} // verus!
