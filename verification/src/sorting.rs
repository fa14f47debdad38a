//! Sorting the discovered open ports ascending before they are reported:
//! the only ordering the scanner guarantees its output.

use vstd::prelude::*;

verus! {

/// `s` is ordered ascending.
pub open spec fn sorted(s: Seq<u32>) -> bool {
    forall|a: int, b: int| 0 <= a <= b < s.len() ==> s[a] <= s[b]
}

proof fn lemma_insert_multiset(s: Seq<u32>, i: int, x: u32)
    requires
        0 <= i <= s.len(),
    ensures
        s.insert(i, x).to_multiset() =~= s.to_multiset().insert(x),
{
    broadcast use vstd::seq_lib::group_to_multiset_ensures;

    let head = s.take(i);
    let tail = s.skip(i);
    assert(s =~= head + tail);
    assert(s.insert(i, x) =~= head + (seq![x] + tail));
    assert(seq![x] =~= Seq::empty().push(x));
    vstd::seq_lib::lemma_multiset_commutative(head, tail);
    vstd::seq_lib::lemma_multiset_commutative(head, seq![x] + tail);
    vstd::seq_lib::lemma_multiset_commutative(seq![x], tail);
}

/// Sorts the ports ascending, keeping exactly the same entries.
pub fn sort_ports(v: &Vec<u32>) -> (r: Vec<u32>)
    ensures
        sorted(r@),
        r@.to_multiset() == v@.to_multiset(),
        r@.len() == v@.len(),
{
    broadcast use vstd::seq_lib::group_to_multiset_ensures;

    let mut out: Vec<u32> = Vec::new();
    let mut k: usize = 0;
    let n = v.len();
    proof {
        assert(v@.take(0) =~= Seq::empty());
    }
    while k < n
        invariant
            0 <= k <= n,
            n == v@.len(),
            sorted(out@),
            out@.len() == k,
            out@.to_multiset() == v@.take(k as int).to_multiset(),
        decreases n - k,
    {
        let x = v[k];
        let mut pos: usize = 0;
        while pos < out.len() && out[pos] <= x
            invariant
                0 <= pos <= out@.len(),
                forall|a: int| 0 <= a < pos ==> #[trigger] out@[a] <= x,
            decreases out@.len() - pos,
        {
            pos = pos + 1;
        }
        let ghost pre = out@;
        out.insert(pos, x);
        proof {
            assert(out@ == pre.insert(pos as int, x));
            lemma_insert_multiset(pre, pos as int, x);
            assert(v@.take(k as int + 1).drop_last() =~= v@.take(k as int));
            assert(v@.take(k as int + 1).last() == x);
            assert(v@.take(k as int + 1) =~= v@.take(k as int).push(x));
            v@.take(k as int).to_multiset_ensures();
            assert(v@.take(k as int).push(x).to_multiset() =~= v@.take(
                k as int,
            ).to_multiset().insert(x));
            assert(out@.to_multiset() =~= v@.take(k as int + 1).to_multiset());
            assert(sorted(out@)) by {
                assert(forall|a: int| 0 <= a < pos ==> #[trigger] out@[a] == pre[a]);
                assert(out@[pos as int] == x);
                assert(forall|a: int|
                    pos < a < out@.len() ==> #[trigger] out@[a] == pre[a - 1]);
                assert(forall|a: int| pos <= a < pre.len() ==> x <= #[trigger] pre[a]) by {
                    if pos < pre.len() {
                        assert(!(pre[pos as int] <= x));
                    }
                }
            }
        }
        k = k + 1;
    }
    proof {
        assert(v@.take(n as int) =~= v@);
    }
    out
}

} // verus!
