//! The static stripe partition of the Port Set across a fixed pool of
//! workers: the worker with index `w` out of `n` visits the Port Set
//! indices `w`, `w + n`, `w + 2n`, and so on.  The lemmas here state the
//! partition's exhaustiveness: every index below the set's length belongs
//! to exactly one worker's stripe, whatever the worker count, so a scan
//! that drives every worker to exhaustion attempts every port exactly
//! once.

use vstd::prelude::*;
use vstd::multiset::Multiset;
use vstd::arithmetic::div_mod::{
    lemma_fundamental_div_mod,
    lemma_mod_division_less_than_divisor,
    lemma_small_mod,
};

verus! {

/// Index `k` lies on the stripe that starts at `start` and steps by
/// `stride`.
pub open spec fn in_stripe(start: int, stride: int, k: int) -> bool {
    start <= k && (k - start) % stride == 0
}

/// How many indices of `0..len` the stripe starting at `start` visits.
pub open spec fn stripe_count(start: int, stride: int, len: int) -> int
    decreases (if start <= len { len - start } else { 0 }) when stride >= 1
{
    if start >= len {
        0
    } else {
        1 + stripe_count(start + stride, stride, len)
    }
}

/// The ports a worker on this stripe finds open, in visiting order:
/// `ports[i]` for each stripe index `i` with `reach[i]` true.
pub open spec fn stripe_opens(start: int, stride: int, ports: Seq<u32>, reach: Seq<bool>) -> Seq<
    u32,
>
    recommends
        reach.len() == ports.len(),
    decreases (if start <= ports.len() { ports.len() - start } else { 0 }) when stride >= 1
{
    if start >= ports.len() {
        Seq::empty()
    } else if reach[start] {
        seq![ports[start]] + stripe_opens(start + stride, stride, ports, reach)
    } else {
        stripe_opens(start + stride, stride, ports, reach)
    }
}

/// Sum of `stripe_count` over the workers `w..n`.
pub open spec fn counts_from(w: int, n: int, len: int) -> int
    decreases n - w,
{
    if w >= n {
        0
    } else {
        stripe_count(w, n, len) + counts_from(w + 1, n, len)
    }
}

/// Concatenation of `stripe_opens` over the workers `w..n`.
pub open spec fn opens_from(w: int, n: int, ports: Seq<u32>, reach: Seq<bool>) -> Seq<u32>
    decreases n - w,
{
    if w >= n {
        Seq::empty()
    } else {
        stripe_opens(w, n, ports, reach) + opens_from(w + 1, n, ports, reach)
    }
}

/// The open ports a single sweep over the whole set finds, in index
/// order: the reference against which every partition is measured.
pub open spec fn all_opens(ports: Seq<u32>, reach: Seq<bool>) -> Seq<u32>
    recommends
        reach.len() == ports.len(),
    decreases ports.len(),
{
    if ports.len() == 0 {
        Seq::empty()
    } else {
        all_opens(ports.drop_last(), reach.drop_last()) + if reach.last() {
            seq![ports.last()]
        } else {
            Seq::empty()
        }
    }
}

/// A stripe visits no more indices than remain beyond its start.
pub proof fn lemma_stripe_count_bounds(start: int, stride: int, len: int)
    requires
        0 <= start,
        1 <= stride,
    ensures
        0 <= stripe_count(start, stride, len) <= if start <= len {
            len - start
        } else {
            0int
        },
    decreases (if start <= len { len - start } else { 0 }),
{
    if start < len {
        lemma_stripe_count_bounds(start + stride, stride, len);
    }
}

/// A stripe finds no more opens than indices it visits.
pub proof fn lemma_stripe_bounds(start: int, stride: int, ports: Seq<u32>, reach: Seq<bool>)
    requires
        0 <= start,
        1 <= stride,
        reach.len() == ports.len(),
    ensures
        0 <= stripe_opens(start, stride, ports, reach).len() <= stripe_count(
            start,
            stride,
            ports.len() as int,
        ),
    decreases (if start <= ports.len() { ports.len() - start } else { 0 }),
{
    if start < ports.len() {
        lemma_stripe_bounds(start + stride, stride, ports, reach);
    }
}

/// Summed stripe counts are never negative.
pub proof fn lemma_counts_from_nonneg(w: int, n: int, len: int)
    requires
        0 <= w,
        1 <= n,
        0 <= len,
    ensures
        counts_from(w, n, len) >= 0,
    decreases (if w <= n { n - w } else { 0 }),
{
    if w < n {
        lemma_counts_from_nonneg(w + 1, n, len);
        lemma_stripe_count_bounds(w, n, len);
    }
}

/// The worker an index is assigned to.
pub open spec fn assigned_worker(k: int, n: int) -> int {
    k % n
}

/// For a worker index below the stride, stripe membership is exactly the
/// residue of the index.
pub proof fn lemma_in_stripe_mod(w: int, n: int, k: int)
    requires
        1 <= n,
        0 <= w < n,
        0 <= k,
    ensures
        in_stripe(w, n, k) <==> k % n == w,
{
    lemma_mod_division_less_than_divisor(k, n);
    lemma_fundamental_div_mod(k, n);
    lemma_small_mod(w as nat, n as nat);
    if in_stripe(w, n, k) {
        lemma_fundamental_div_mod(k - w, n);
        let q = (k - w) / n;
        assert(k == q * n + w);
        assert(k % n == (q * n + w) % n);
        assert((q * n + w) % n == w % n) by (nonlinear_arith)
            requires
                1 <= n,
                0 <= w,
        {
            lemma_fundamental_div_mod(q * n + w, n);
            lemma_fundamental_div_mod(w, n);
            lemma_mod_division_less_than_divisor(q * n + w, n);
            lemma_mod_division_less_than_divisor(w, n);
            vstd::arithmetic::div_mod::lemma_mod_add_multiples_vanish(w, n);
            vstd::arithmetic::div_mod::lemma_mod_adds(q * n, w, n);
            vstd::arithmetic::div_mod::lemma_mod_multiples_basic(q, n);
        }
    }
    if k % n == w {
        let q = k / n;
        assert(k == n * q + w);
        assert((k - w) == n * q);
        assert((n * q) % n == 0) by {
            vstd::arithmetic::div_mod::lemma_mod_multiples_basic(q, n);
            assert(q * n == n * q) by (nonlinear_arith);
        }
        assert(q >= 0) by {
            vstd::arithmetic::div_mod::lemma_div_pos_is_pos(k, n);
        }
        assert(w <= k) by (nonlinear_arith)
            requires
                k == n * q + w,
                q >= 0,
                n >= 1,
        ;
    }
}

/// Exhaustiveness of the stripe partition: every index belongs to the
/// stripe of exactly one worker, whatever the worker count.
pub proof fn lemma_partition_exhaustive(n: int, k: int)
    requires
        1 <= n,
        0 <= k,
    ensures
        0 <= assigned_worker(k, n) < n,
        in_stripe(assigned_worker(k, n), n, k),
        forall|w: int| 0 <= w < n && in_stripe(w, n, k) ==> w == assigned_worker(k, n),
{
    lemma_mod_division_less_than_divisor(k, n);
    lemma_in_stripe_mod(k % n, n, k);
    assert forall|w: int| 0 <= w < n && in_stripe(w, n, k) implies w == assigned_worker(k, n) by {
        lemma_in_stripe_mod(w, n, k);
    }
}

proof fn lemma_stripe_count_extend(start: int, stride: int, len: int)
    requires
        0 <= start,
        1 <= stride,
        0 <= len,
    ensures
        stripe_count(start, stride, len + 1) == stripe_count(start, stride, len) + if in_stripe(
            start,
            stride,
            len,
        ) {
            1int
        } else {
            0int
        },
    decreases len + 1 - start,
{
    if start >= len + 1 {
        assert(!in_stripe(start, stride, len));
    } else if start == len {
        assert(stripe_count(len, stride, len + 1) == 1 + stripe_count(
            len + stride,
            stride,
            len + 1,
        ));
        assert(stripe_count(len + stride, stride, len + 1) == 0);
        assert((len - start) % stride == 0) by {
            lemma_small_mod(0, stride as nat);
        }
    } else {
        if start + stride <= len + 1 {
            lemma_stripe_count_extend(start + stride, stride, len);
        } else {
            assert(stripe_count(start + stride, stride, len + 1) == 0);
            assert(stripe_count(start + stride, stride, len) == 0);
            assert(!in_stripe(start + stride, stride, len));
        }
        assert(in_stripe(start + stride, stride, len) <==> in_stripe(start, stride, len)) by {
            lemma_stripe_shift(start, stride, len);
        }
    }
}

/// Stepping the stripe start by one stride does not change whether `k`
/// beyond the new start lies on it.
proof fn lemma_stripe_shift(start: int, stride: int, k: int)
    requires
        0 <= start,
        1 <= stride,
        start < k,
    ensures
        in_stripe(start + stride, stride, k) <==> in_stripe(start, stride, k),
{
    let a = k - start;
    assert((a - stride) % stride == a % stride) by {
        vstd::arithmetic::div_mod::lemma_mod_sub_multiples_vanish(a, stride);
    }
    if in_stripe(start, stride, k) && !(start + stride <= k) {
        assert(start < k < start + stride);
        assert(0 < a < stride);
        lemma_small_mod(a as nat, stride as nat);
        assert(a % stride != 0);
    }
}

proof fn lemma_stripe_opens_extend(
    start: int,
    stride: int,
    ports: Seq<u32>,
    reach: Seq<bool>,
    p: u32,
    b: bool,
)
    requires
        0 <= start,
        1 <= stride,
        reach.len() == ports.len(),
    ensures
        stripe_opens(start, stride, ports.push(p), reach.push(b)) =~= stripe_opens(
            start,
            stride,
            ports,
            reach,
        ) + if in_stripe(start, stride, ports.len() as int) && b {
            seq![p]
        } else {
            Seq::empty()
        },
    decreases (if start <= ports.len() { ports.len() + 1 - start } else { 0 }),
{
    let len = ports.len() as int;
    let ps = ports.push(p);
    let rs = reach.push(b);
    if start >= len + 1 {
        assert(!in_stripe(start, stride, len));
        assert(stripe_opens(start, stride, ps, rs) =~= Seq::empty());
        assert(stripe_opens(start, stride, ports, reach) =~= Seq::empty());
    } else if start == len {
        assert(rs[len] == b);
        assert(ps[len] == p);
        assert(stripe_opens(start + stride, stride, ps, rs) =~= Seq::empty());
        assert(stripe_opens(start, stride, ports, reach) =~= Seq::empty());
        assert((len - start) % stride == 0) by {
            lemma_small_mod(0, stride as nat);
        }
        if b {
            assert(stripe_opens(start, stride, ps, rs) =~= seq![p] + Seq::empty());
        }
    } else {
        assert(ps[start] == ports[start]);
        assert(rs[start] == reach[start]);
        lemma_stripe_opens_extend(start + stride, stride, ports, reach, p, b);
        lemma_stripe_shift(start, stride, len);
    }
}

/// Summed over the workers `w..n`, extending the set by one index adds
/// one visit if, and only if, that index's worker lies in `w..n`.
proof fn lemma_counts_from_extend(w: int, n: int, len: int)
    requires
        1 <= n,
        0 <= w <= n,
        0 <= len,
    ensures
        counts_from(w, n, len + 1) == counts_from(w, n, len) + if w <= len % n {
            1int
        } else {
            0int
        },
    decreases n - w,
{
    lemma_mod_division_less_than_divisor(len, n);
    if w < n {
        lemma_counts_from_extend(w + 1, n, len);
        lemma_stripe_count_extend(w, n, len);
        lemma_in_stripe_mod(w, n, len);
    }
}

/// Every worker count partitions the indices exhaustively: the stripes
/// of the workers `0..n` together visit exactly `len` indices.
pub proof fn lemma_counts_total(n: int, len: int)
    requires
        1 <= n,
        0 <= len,
    ensures
        counts_from(0, n, len) == len,
    decreases len,
{
    if len == 0 {
        lemma_counts_from_zero(0, n);
    } else {
        lemma_counts_total(n, len - 1);
        lemma_counts_from_extend(0, n, len - 1);
        lemma_mod_division_less_than_divisor(len - 1, n);
    }
}

proof fn lemma_counts_from_zero(w: int, n: int)
    requires
        0 <= w <= n,
    ensures
        counts_from(w, n, 0) == 0,
    decreases n - w,
{
    if w < n {
        lemma_counts_from_zero(w + 1, n);
    }
}

proof fn lemma_opens_from_empty(w: int, n: int)
    requires
        0 <= w <= n,
    ensures
        opens_from(w, n, Seq::empty(), Seq::empty()) =~= Seq::empty(),
    decreases n - w,
{
    if w < n {
        lemma_opens_from_empty(w + 1, n);
        assert(stripe_opens(w, n, Seq::empty(), Seq::empty()) =~= Seq::empty());
    }
}

proof fn lemma_opens_from_extend(
    w: int,
    n: int,
    ports: Seq<u32>,
    reach: Seq<bool>,
    p: u32,
    b: bool,
)
    requires
        1 <= n,
        0 <= w <= n,
        reach.len() == ports.len(),
    ensures
        opens_from(w, n, ports.push(p), reach.push(b)).to_multiset() =~= opens_from(
            w,
            n,
            ports,
            reach,
        ).to_multiset().add(
            if w <= ports.len() as int % n && b {
                Multiset::singleton(p)
            } else {
                Multiset::empty()
            },
        ),
    decreases n - w,
{
    broadcast use vstd::seq_lib::group_to_multiset_ensures;

    let len = ports.len() as int;
    lemma_mod_division_less_than_divisor(len, n);
    if w < n {
        lemma_opens_from_extend(w + 1, n, ports, reach, p, b);
        lemma_stripe_opens_extend(w, n, ports, reach, p, b);
        lemma_in_stripe_mod(w, n, len);
        let s_old = stripe_opens(w, n, ports, reach);
        let s_new = stripe_opens(w, n, ports.push(p), reach.push(b));
        let rest_old = opens_from(w + 1, n, ports, reach);
        let rest_new = opens_from(w + 1, n, ports.push(p), reach.push(b));
        vstd::seq_lib::lemma_multiset_commutative(s_old, rest_old);
        vstd::seq_lib::lemma_multiset_commutative(s_new, rest_new);
        if len % n == w && b {
            assert(s_new =~= s_old + seq![p]);
            vstd::seq_lib::lemma_multiset_commutative(s_old, seq![p]);
            assert(seq![p] =~= Seq::empty().push(p));
            assert(seq![p].to_multiset() =~= Multiset::singleton(p));
        } else {
            assert(s_new =~= s_old + Seq::empty());
            assert(s_new =~= s_old);
        }
    }
}

/// Whatever the worker count, the stripes together find exactly the open
/// ports a single sweep over the whole set finds.
pub proof fn lemma_opens_total(n: int, ports: Seq<u32>, reach: Seq<bool>)
    requires
        1 <= n,
        reach.len() == ports.len(),
    ensures
        opens_from(0, n, ports, reach).to_multiset() =~= all_opens(ports, reach).to_multiset(),
    decreases ports.len(),
{
    broadcast use vstd::seq_lib::group_to_multiset_ensures;

    if ports.len() == 0 {
        assert(ports =~= Seq::<u32>::empty());
        assert(reach =~= Seq::<bool>::empty());
        lemma_opens_from_empty(0, n);
    } else {
        let dp = ports.drop_last();
        let dr = reach.drop_last();
        let p = ports.last();
        let b = reach.last();
        assert(ports =~= dp.push(p));
        assert(reach =~= dr.push(b));
        lemma_opens_total(n, dp, dr);
        lemma_opens_from_extend(0, n, dp, dr, p, b);
        lemma_mod_division_less_than_divisor(dp.len() as int, n);
        vstd::seq_lib::lemma_multiset_commutative(
            all_opens(dp, dr),
            if b {
                seq![p]
            } else {
                Seq::empty()
            },
        );
        if b {
            assert(seq![p] =~= Seq::empty().push(p));
            assert(seq![p].to_multiset() =~= Multiset::singleton(p));
        }
    }
}

/// The partition decides nothing: against one reachability fixture, any
/// two worker counts gather exactly the same collection of open ports.
/// Only the timing and the discovery order may differ between runs.
pub proof fn lemma_scan_set_deterministic(
    n1: int,
    n2: int,
    ports: Seq<u32>,
    reach: Seq<bool>,
)
    requires
        1 <= n1,
        1 <= n2,
        reach.len() == ports.len(),
    ensures
        opens_from(0, n1, ports, reach).to_multiset() == opens_from(
            0,
            n2,
            ports,
            reach,
        ).to_multiset(),
{
    lemma_opens_total(n1, ports, reach);
    lemma_opens_total(n2, ports, reach);
}

/// A port is among the opens of a full sweep exactly when some index of
/// the set carries it and answers.
pub proof fn lemma_all_opens_contains(ports: Seq<u32>, reach: Seq<bool>)
    requires
        reach.len() == ports.len(),
    ensures
        forall|q: u32|
            #[trigger] all_opens(ports, reach).contains(q) <==> (exists|i: int|
                0 <= i < ports.len() && reach[i] && #[trigger] ports[i] == q),
    decreases ports.len(),
{
    if ports.len() > 0 {
        let dp = ports.drop_last();
        let dr = reach.drop_last();
        lemma_all_opens_contains(dp, dr);
        let whole = all_opens(ports, reach);
        let head = all_opens(dp, dr);
        let tail: Seq<u32> = if reach.last() {
            seq![ports.last()]
        } else {
            Seq::empty()
        };
        assert forall|q: u32| #[trigger] whole.contains(q) implies (exists|i: int|
            0 <= i < ports.len() && reach[i] && #[trigger] ports[i] == q) by {
            let k = choose|k: int| 0 <= k < whole.len() && #[trigger] whole[k] == q;
            if k < head.len() {
                assert(head[k] == q);
                assert(head.contains(q));
                let i = choose|i: int| 0 <= i < dp.len() && dr[i] && #[trigger] dp[i] == q;
                assert(ports[i] == q && reach[i]);
            } else {
                assert(tail[k - head.len()] == q);
                assert(reach.last() && ports.last() == q);
                assert(ports[ports.len() - 1] == q && reach[ports.len() - 1]);
            }
        }
        assert forall|q: u32| (exists|i: int|
            0 <= i < ports.len() && reach[i] && #[trigger] ports[i] == q) implies #[trigger] whole
            .contains(q) by {
            let i = choose|i: int| 0 <= i < ports.len() && reach[i] && #[trigger] ports[i] == q;
            if i < ports.len() - 1 {
                assert(dp[i] == q && dr[i]);
                assert(head.contains(q));
                let k = choose|k: int| 0 <= k < head.len() && #[trigger] head[k] == q;
                assert(whole[k] == q);
            } else {
                assert(reach.last() && ports.last() == q);
                assert(whole[head.len() as int] == q);
            }
        }
    }
}

} // verus!
