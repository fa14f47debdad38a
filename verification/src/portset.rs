//! Building the Port Set: the deduplicated collection of every port the
//! requested ranges stand for, or the whole port space when no range was
//! requested.  Membership is exact and no port appears twice, so a scan
//! that walks the set visits every requested port exactly once.

use vstd::prelude::*;
use crate::constants::MAX_PORT;
use crate::models::PortRange;

verus! {

pub(crate) proof fn lemma_push_contains<A>(s: Seq<A>, x: A, q: A)
    ensures
        s.push(x).contains(q) <==> (s.contains(q) || q == x),
{
    if s.push(x).contains(q) {
        let k = choose|k: int| 0 <= k < s.push(x).len() && #[trigger] s.push(x)[k] == q;
        if k < s.len() {
            assert(s[k] == q);
        }
    }
    if s.contains(q) {
        let k = choose|k: int| 0 <= k < s.len() && #[trigger] s[k] == q;
        assert(s.push(x)[k] == q);
    }
    if q == x {
        assert(s.push(x)[s.len() as int] == q);
    }
}

proof fn lemma_take_succ_contains<A>(s: Seq<A>, j: int, q: A)
    requires
        0 <= j < s.len(),
    ensures
        s.take(j + 1).contains(q) <==> (s.take(j).contains(q) || s[j] == q),
{
    if s.take(j + 1).contains(q) {
        let k = choose|k: int| 0 <= k < j + 1 && #[trigger] s.take(j + 1)[k] == q;
        if k < j {
            assert(s.take(j)[k] == q);
        }
    }
    if s.take(j).contains(q) {
        let k = choose|k: int| 0 <= k < j && #[trigger] s.take(j)[k] == q;
        assert(s.take(j + 1)[k] == q);
    }
    if s[j] == q {
        assert(s.take(j + 1)[j] == q);
    }
}

/// `p` is named by at least one of the ranges.
pub open spec fn in_ranges(ranges: Seq<PortRange>, p: u32) -> bool {
    exists|i: int, j: int|
        0 <= i < ranges.len() && 0 <= j < ranges[i].0@.len() && #[trigger] ranges[i].0@[j] == p
}

/// Collects the union of the given ranges, keeping the first occurrence
/// of each port and dropping every later duplicate.
pub fn build_port_set(ranges: &Vec<PortRange>) -> (r: Vec<u32>)
    requires
        forall|i: int| 0 <= i < ranges@.len() ==> (#[trigger] ranges@[i]).wf(),
    ensures
        r@.no_duplicates(),
        forall|p: u32| #[trigger] r@.contains(p) <==> in_ranges(ranges@, p),
        forall|k: int| 0 <= k < r@.len() ==> #[trigger] r@[k] <= MAX_PORT,
{
    broadcast use vstd::seq_lib::group_seq_properties;

    let mut seen: Vec<bool> = Vec::new();
    let mut t: usize = 0;
    while t < 65536
        invariant
            seen@.len() == t,
            t <= 65536,
            forall|q: int| 0 <= q < t ==> #[trigger] seen@[q] == false,
        decreases 65536 - t,
    {
        seen.push(false);
        t = t + 1;
    }
    let mut out: Vec<u32> = Vec::new();
    let mut i: usize = 0;
    let n = ranges.len();
    while i < n
        invariant
            n == ranges@.len(),
            0 <= i <= n,
            seen@.len() == 65536,
            forall|ii: int| 0 <= ii < ranges@.len() ==> (#[trigger] ranges@[ii]).wf(),
            out@.no_duplicates(),
            forall|k: int| 0 <= k < out@.len() ==> #[trigger] out@[k] <= MAX_PORT,
            forall|p: u32| p <= MAX_PORT ==> (#[trigger] seen@[p as int] <==> out@.contains(p)),
            forall|p: u32| #[trigger] out@.contains(p) <==> in_ranges(ranges@.take(i as int), p),
        decreases n - i,
    {
        let pr: &PortRange = &ranges[i];
        let m = pr.0.len();
        let mut j: usize = 0;
        while j < m
            invariant
                n == ranges@.len(),
                0 <= i < n,
                m == pr.0@.len(),
                0 <= j <= m,
                pr == &ranges@[i as int],
                seen@.len() == 65536,
                forall|ii: int| 0 <= ii < ranges@.len() ==> (#[trigger] ranges@[ii]).wf(),
                out@.no_duplicates(),
                forall|k: int| 0 <= k < out@.len() ==> #[trigger] out@[k] <= MAX_PORT,
                forall|p: u32|
                    p <= MAX_PORT ==> (#[trigger] seen@[p as int] <==> out@.contains(p)),
                forall|p: u32|
                    #[trigger] out@.contains(p) <==> (in_ranges(ranges@.take(i as int), p)
                        || pr.0@.take(j as int).contains(p)),
            decreases m - j,
        {
            let p = pr.0[j];
            proof {
                assert(pr.0@[j as int] <= MAX_PORT);
            }
            let ghost pre = out@;
            let idx = p as usize;
            let was = seen[idx];
            if !was {
                seen.set(idx, true);
                out.push(p);
            }
            proof {
                if !was {
                    assert(out@ == pre.push(p));
                    assert(!pre.contains(p));
                    assert(out@.no_duplicates()) by {
                        assert(forall|k: int|
                            0 <= k < pre.len() ==> #[trigger] out@[k] == pre[k]);
                        assert(out@[pre.len() as int] == p);
                    }
                } else {
                    assert(out@ == pre);
                    assert(pre.contains(p));
                }
                assert forall|q: u32| #[trigger] out@.contains(q) <==> (pre.contains(q) || q
                    == p) by {
                    if !was {
                        lemma_push_contains(pre, p, q);
                    }
                }
                assert forall|q: u32|
                    #[trigger] pr.0@.take(j as int + 1).contains(q) <==> (pr.0@.take(
                        j as int,
                    ).contains(q) || q == p) by {
                    lemma_take_succ_contains(pr.0@, j as int, q);
                }
            }
            j = j + 1;
        }
        proof {
            assert(pr.0@.take(m as int) =~= pr.0@);
            assert forall|q: u32| #[trigger] out@.contains(q) implies in_ranges(
                ranges@.take(i as int + 1),
                q,
            ) by {
                if in_ranges(ranges@.take(i as int), q) {
                    let (a, b) = choose|a: int, b: int|
                        0 <= a < ranges@.take(i as int).len() && 0 <= b < ranges@.take(
                            i as int,
                        )[a].0@.len() && #[trigger] ranges@.take(i as int)[a].0@[b] == q;
                    assert(ranges@.take(i as int + 1)[a].0@[b] == q);
                } else {
                    assert(pr.0@.contains(q));
                    let b = choose|b: int| 0 <= b < pr.0@.len() && pr.0@[b] == q;
                    assert(ranges@.take(i as int + 1)[i as int].0@[b] == q);
                }
            }
            assert forall|q: u32| in_ranges(ranges@.take(i as int + 1), q) implies #[trigger] out@
                .contains(q) by {
                let (a, b) = choose|a: int, b: int|
                    0 <= a < ranges@.take(i as int + 1).len() && 0 <= b < ranges@.take(
                        i as int + 1,
                    )[a].0@.len() && #[trigger] ranges@.take(i as int + 1)[a].0@[b] == q;
                if a < i as int {
                    assert(ranges@.take(i as int)[a].0@[b] == q);
                    assert(in_ranges(ranges@.take(i as int), q));
                } else {
                    assert(pr.0@[b] == q);
                    assert(pr.0@.take(m as int)[b] == q);
                }
            }
        }
        i = i + 1;
    }
    proof {
        assert(ranges@.take(n as int) =~= ranges@);
    }
    out
}

/// The Port Set of a scan request: the union of the requested ranges,
/// or the whole port space when none was requested.
pub fn ports_to_scan(ranges: Option<&Vec<PortRange>>) -> (r: Vec<u32>)
    requires
        (match ranges {
            Some(rs) => forall|i: int| 0 <= i < rs@.len() ==> (#[trigger] rs@[i]).wf(),
            None => true,
        }),
    ensures
        r@.no_duplicates(),
        forall|k: int| 0 <= k < r@.len() ==> #[trigger] r@[k] <= MAX_PORT,
        (match ranges {
            Some(rs) => forall|p: u32| #[trigger] r@.contains(p) <==> in_ranges(rs@, p),
            None => forall|p: u32| #[trigger] r@.contains(p) <==> p <= MAX_PORT,
        }),
{
    match ranges {
        Some(rs) => build_port_set(rs),
        None => full_port_set(),
    }
}

/// The whole port space, ascending: every port from 0 to 65535 once.
pub fn full_port_set() -> (r: Vec<u32>)
    ensures
        r@.len() == 65536,
        forall|k: int| 0 <= k < r@.len() ==> #[trigger] r@[k] == k as u32,
        r@.no_duplicates(),
        forall|p: u32| #[trigger] r@.contains(p) <==> p <= MAX_PORT,
{
    let mut out: Vec<u32> = Vec::new();
    let mut p: usize = 0;
    while p < 65536
        invariant
            out@.len() == p,
            p <= 65536,
            forall|k: int| 0 <= k < p ==> #[trigger] out@[k] == k as u32,
        decreases 65536 - p,
    {
        out.push(p as u32);
        p = p + 1;
    }
    proof {
        assert forall|q: u32| #[trigger] out@.contains(q) implies q <= MAX_PORT by {
            let k = choose|k: int| 0 <= k < out@.len() && out@[k] == q;
        }
        assert forall|q: u32| q <= MAX_PORT implies #[trigger] out@.contains(q) by {
            assert(out@[q as int] == q);
        }
    }
    out
}

} // verus!
