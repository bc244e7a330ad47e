//! Tree addressing: the map between a time period `t`, the node of the key
//! tree assigned to it, and the node's path.
//!
//! The key tree for parameter `l` has `2^l - 1` nodes, at depths `0` to
//! `l - 1`.  A node is labelled by its path from the root: appending `1`
//! selects the left child, appending `2` the right child.  Periods
//! `1 ..= 2^l - 1` are assigned to nodes in pre-order, so the root is
//! period 1 and the subtree rooted at a node covers one contiguous interval
//! of periods.  Everything here is pure arithmetic; the lemmas at the end
//! are what the key-evolution engine's frontier reasoning rests on.

use vstd::prelude::*;
use vstd::arithmetic::power2::*;

use crate::errors::ForwardSecureSignatureError;

verus! {

/// A path is well-formed for tree parameter `l` when it is shorter than `l`
/// and each step selects the left (1) or right (2) child.
pub open spec fn valid_path(p: Seq<u8>, l: nat) -> bool {
    &&& p.len() < l
    &&& forall|i: int| 0 <= i < p.len() ==> p[i] == 1 || p[i] == 2
}

/// The path of the node assigned to period `t` in the tree with parameter
/// `l`: period 1 is the root, periods `2 ..= 2^(l-1)` descend left, the rest
/// descend right.
pub open spec fn spec_path_of(t: nat, l: nat) -> Seq<u8>
    decreases l,
{
    if l <= 1 || t <= 1 {
        Seq::empty()
    } else if t <= pow2((l - 1) as nat) {
        seq![1u8] + spec_path_of((t - 1) as nat, (l - 1) as nat)
    } else {
        seq![2u8] + spec_path_of((t - pow2((l - 1) as nat)) as nat, (l - 1) as nat)
    }
}

/// The period assigned to the node at path `p`: the pre-order number, where
/// stepping left adds 1 and stepping right skips the whole left subtree.
pub open spec fn spec_node_num(p: Seq<u8>, l: nat) -> nat
    decreases p.len(),
{
    if p.len() == 0 {
        1
    } else if p[0] == 1 {
        1 + spec_node_num(p.drop_first(), (l - 1) as nat)
    } else {
        pow2((l - 1) as nat) + spec_node_num(p.drop_first(), (l - 1) as nat)
    }
}

/// Whether `v` is a power of two.
pub open spec fn is_power_of_two(v: nat) -> bool {
    exists|k: nat| v == pow2(k)
}

/// The concrete size of `pow2(127)`, the largest power of two a horizon can
/// reach: a horizon `T` must satisfy `T < u128::MAX`, so `T + 1 <= 2^127`.
proof fn lemma_pow2_127_value()
    ensures
        pow2(127) == 0x80000000000000000000000000000000,
{
    lemma2_to64();
    lemma_pow2_adds(32, 31);
    lemma_pow2_adds(64, 63);
}

/// Exact power of two as a machine integer.
pub(crate) fn pow2_u128(e: u8) -> (r: u128)
    requires
        e <= 127,
    ensures
        r == pow2(e as nat),
{
    proof {
        lemma_pow2_127_value();
        lemma2_to64();
    }
    let mut acc: u128 = 1;
    let mut i: u8 = 0;
    while i < e
        invariant
            i <= e <= 127,
            acc == pow2(i as nat),
            pow2(127) == 0x80000000000000000000000000000000,
        decreases e - i,
    {
        proof {
            lemma_pow2_unfold((i + 1) as nat);
            if (i + 1) < 127 {
                lemma_pow2_strictly_increases((i + 1) as nat, 127);
            }
        }
        acc = acc * 2;
        i = i + 1;
    }
    acc
}

/// No power of two lies strictly between `pow2(k)` and `pow2(k + 1)`.
proof fn lemma_pow2_gap(v: nat, k: nat)
    requires
        pow2(k) < v < pow2(k + 1),
    ensures
        !is_power_of_two(v),
{
    assert forall|j: nat| v != #[trigger] pow2(j) by {
        if j <= k {
            if j < k {
                lemma_pow2_strictly_increases(j, k);
            }
        } else {
            if k + 1 < j {
                lemma_pow2_strictly_increases(k + 1, j);
            }
        }
    }
}

/// The tree parameter for a horizon `T`: the `l` with `2^l == T + 1`.
///
/// Returns `InvalidMaxTimePeriod` when `T < 3` or `T` is the integer
/// maximum, and `NonPowerOfTwo` when `T + 1` is not a power of two, exactly
/// as stated in the contract.
pub fn calculate_l(t_max: u128) -> (r: Result<u8, ForwardSecureSignatureError>)
    ensures
        (t_max < 3 || t_max == u128::MAX) <==> r == Err::<u8, _>(
            ForwardSecureSignatureError::InvalidMaxTimePeriod { t_max },
        ),
        (3 <= t_max < u128::MAX && !is_power_of_two((t_max + 1) as nat)) <==> r == Err::<u8, _>(
            ForwardSecureSignatureError::NonPowerOfTwo { t_max },
        ),
        r matches Ok(l) ==> {
            &&& 2 <= l <= 127
            &&& pow2(l as nat) == t_max + 1
        },
        (3 <= t_max < u128::MAX && is_power_of_two((t_max + 1) as nat)) <==> r is Ok,
{
    if t_max < 3 || t_max == u128::MAX {
        return Err(ForwardSecureSignatureError::InvalidMaxTimePeriod { t_max });
    }
    proof {
        lemma_pow2_127_value();
        lemma2_to64();
    }
    let mut l: u8 = 2;
    let mut acc: u128 = 4;
    while acc - 1 < t_max && l < 127
        invariant
            2 <= l <= 127,
            acc == pow2(l as nat),
            acc >= 4,
            l > 2 ==> pow2((l - 1) as nat) - 1 < t_max,
            pow2(127) == 0x80000000000000000000000000000000,
            3 <= t_max < u128::MAX,
        decreases 127 - l,
    {
        proof {
            lemma_pow2_unfold((l + 1) as nat);
            if (l + 1) < 127 {
                lemma_pow2_strictly_increases((l + 1) as nat, 127);
            }
        }
        acc = acc * 2;
        l = l + 1;
    }
    if acc - 1 == t_max {
        Ok(l)
    } else if acc - 1 > t_max {
        // 2^(l-1) <= T < 2^l - 1, so T + 1 falls strictly between two powers.
        proof {
            lemma_pow2_unfold(l as nat);
            lemma_pow2_gap((t_max + 1) as nat, (l - 1) as nat);
        }
        Err(ForwardSecureSignatureError::NonPowerOfTwo { t_max })
    } else {
        // l reached 127 with 2^127 - 1 < T < u128::MAX: T + 1 lies strictly
        // between 2^127 and 2^128.
        proof {
            lemma_pow2_unfold(128);
            lemma_pow2_gap((t_max + 1) as nat, 127);
        }
        Err(ForwardSecureSignatureError::NonPowerOfTwo { t_max })
    }
}

/// The path of the node assigned to period `t`, for `t` already known to be
/// in range.
pub fn node_num_to_path(t: u128, l: u8) -> (r: Vec<u8>)
    requires
        l <= 127,
        1 <= t,
        t <= pow2(l as nat) - 1,
    ensures
        r@ == spec_path_of(t as nat, l as nat),
        valid_path(r@, l as nat),
{
    proof {
        lemma2_to64();
        assert(l >= 1);
        lemma_path_of_props(t as nat, l as nat);
    }
    let mut path: Vec<u8> = Vec::new();
    let mut tt: u128 = t;
    let mut ll: u8 = l;
    while tt > 1 && ll > 1
        invariant
            1 <= ll <= l <= 127,
            1 <= tt <= pow2(ll as nat) - 1,
            spec_path_of(t as nat, l as nat) == path@ + spec_path_of(tt as nat, ll as nat),
        decreases ll,
    {
        let half = pow2_u128(ll - 1);
        proof {
            lemma_pow2_unfold(ll as nat);
            lemma_pow2_pos((ll - 1) as nat);
        }
        if tt <= half {
            path.push(1u8);
            tt = tt - 1;
            assert(spec_path_of(t as nat, l as nat) == path@ + spec_path_of(
                tt as nat,
                (ll - 1) as nat,
            ));
        } else {
            path.push(2u8);
            tt = tt - half;
            assert(spec_path_of(t as nat, l as nat) == path@ + spec_path_of(
                tt as nat,
                (ll - 1) as nat,
            ));
        }
        ll = ll - 1;
    }
    assert(spec_path_of(tt as nat, ll as nat) =~= Seq::<u8>::empty());
    assert(path@ =~= path@ + Seq::<u8>::empty());
    path
}

/// The path assigned to a period in range is well-formed, and the node at
/// that path is numbered with that period: the assignment is a bijection.
pub proof fn lemma_path_of_props(t: nat, l: nat)
    requires
        1 <= l,
        1 <= t,
        t <= pow2(l) - 1,
    ensures
        valid_path(spec_path_of(t, l), l),
        spec_node_num(spec_path_of(t, l), l) == t,
    decreases l,
{
    lemma_pow2_pos(l);
    lemma2_to64();
    if l <= 1 || t <= 1 {
        lemma_pow2_pos((l - 1) as nat);
        if l == 1 {
            assert(pow2(1) == 2);
        }
    } else if t <= pow2((l - 1) as nat) {
        lemma_path_of_props((t - 1) as nat, (l - 1) as nat);
        let rest = spec_path_of((t - 1) as nat, (l - 1) as nat);
        let p = seq![1u8] + rest;
        assert(p.drop_first() =~= rest);
        assert(spec_path_of(t, l) == p);
    } else {
        lemma_pow2_unfold(l);
        let t2 = (t - pow2((l - 1) as nat)) as nat;
        lemma_path_of_props(t2, (l - 1) as nat);
        let rest = spec_path_of(t2, (l - 1) as nat);
        let p = seq![2u8] + rest;
        assert(p.drop_first() =~= rest);
        assert(spec_path_of(t, l) == p);
    }
}

/// The node at a well-formed path carries a period in range, and its whole
/// subtree (of `pow2(l - |p|) - 1` nodes) still fits below `2^l - 1`.
pub proof fn lemma_node_num_bounds(p: Seq<u8>, l: nat)
    requires
        valid_path(p, l),
    ensures
        1 <= spec_node_num(p, l),
        spec_node_num(p, l) + pow2((l - p.len()) as nat) - 2 <= pow2(l) - 1,
    decreases p.len(),
{
    lemma_pow2_pos(l);
    lemma_pow2_pos((l - p.len()) as nat);
    if p.len() == 0 {
    } else {
        let q = p.drop_first();
        assert(valid_path(q, (l - 1) as nat));
        lemma_node_num_bounds(q, (l - 1) as nat);
        lemma_pow2_unfold(l);
        lemma_pow2_pos(((l - 1) - q.len()) as nat);
        assert(((l - 1) - q.len()) as nat == (l - p.len()) as nat);
    }
}

/// Inverse direction of the bijection: recovering the path from the node's
/// period gives the path back.
pub proof fn lemma_path_of_node_num(p: Seq<u8>, l: nat)
    requires
        valid_path(p, l),
    ensures
        spec_path_of(spec_node_num(p, l), l) == p,
    decreases p.len(),
{
    if p.len() == 0 {
    } else {
        let q = p.drop_first();
        assert(valid_path(q, (l - 1) as nat));
        lemma_node_num_bounds(q, (l - 1) as nat);
        lemma_path_of_node_num(q, (l - 1) as nat);
        lemma2_to64();
        lemma_pow2_strictly_increases(0, ((l - 1) - q.len()) as nat);
        assert(pow2(((l - 1) - q.len()) as nat) >= 2);
        assert(spec_node_num(q, (l - 1) as nat) <= pow2((l - 1) as nat) - 1);
        lemma_pow2_unfold(l);
        let n = spec_node_num(p, l);
        if p[0] == 1 {
            assert(n <= pow2((l - 1) as nat));
            assert(spec_path_of(n, l) == seq![1u8] + q);
            assert(seq![1u8] + q =~= p);
        } else {
            assert(n > pow2((l - 1) as nat));
            assert(n <= pow2(l) - 1);
            assert(spec_path_of(n, l) == seq![2u8] + q);
            assert(seq![2u8] + q =~= p);
        }
    }
}

/// Pre-order numbers compose along a path: the number of `p ++ r` is the
/// number of `p` plus the number of `r` within `p`'s subtree, less one.
pub proof fn lemma_node_num_concat(p: Seq<u8>, r: Seq<u8>, l: nat)
    requires
        p.len() + r.len() < l,
    ensures
        spec_node_num(p + r, l) == spec_node_num(p, l) + spec_node_num(r, (l - p.len()) as nat)
            - 1,
    decreases p.len(),
{
    if p.len() == 0 {
        assert(p + r =~= r);
    } else {
        let q = p.drop_first();
        assert((p + r).drop_first() =~= q + r);
        assert((p + r)[0] == p[0]);
        lemma_node_num_concat(q, r, (l - 1) as nat);
    }
}

/// The all-right path of length `k`: the spine along which the last periods
/// of the horizon lie.
pub open spec fn all_twos(k: nat) -> Seq<u8> {
    Seq::new(k, |i: int| 2u8)
}

/// The period of the node at the end of the all-right spine of length `k`.
pub proof fn lemma_all_twos_num(k: nat, l: nat)
    requires
        k < l,
    ensures
        spec_node_num(all_twos(k), l) == pow2(l) - pow2((l - k) as nat) + 1,
    decreases k,
{
    lemma_pow2_pos(l);
    if k == 0 {
    } else {
        assert(all_twos(k)[0] == 2);
        assert(all_twos(k).drop_first() =~= all_twos((k - 1) as nat));
        lemma_all_twos_num((k - 1) as nat, (l - 1) as nat);
        lemma_pow2_unfold(l);
        lemma_pow2_unfold((l - k + 1) as nat);
        lemma_pow2_pos((l - k) as nat);
        assert(((l - 1) - (k - 1)) as nat == (l - k) as nat);
    }
}

/// The last period of the horizon sits at the end of the all-right spine.
pub proof fn lemma_last_node_path(l: nat)
    requires
        1 <= l,
    ensures
        spec_path_of((pow2(l) - 1) as nat, l) == all_twos((l - 1) as nat),
{
    lemma_pow2_unfold(l);
    lemma_pow2_pos((l - 1) as nat);
    assert(valid_path(all_twos((l - 1) as nat), l));
    lemma_all_twos_num((l - 1) as nat, l);
    lemma_pow2_unfold(1);
    lemma_pow2_pos(0);
    assert(pow2(1) == 2) by {
        lemma2_to64();
    }
    lemma_path_of_node_num(all_twos((l - 1) as nat), l);
}

/// The period of the node at a single step below some level `ll`.
proof fn lemma_single_step_num(b: u8, ll: nat)
    requires
        1 <= ll,
    ensures
        b == 1 ==> spec_node_num(seq![b], ll) == 2,
        b != 1 ==> spec_node_num(seq![b], ll) == pow2((ll - 1) as nat) + 1,
{
    let s = seq![b];
    assert(s.len() == 1);
    assert(s[0] == b);
    assert(s.drop_first() =~= Seq::<u8>::empty());
    assert(spec_node_num(Seq::<u8>::empty(), (ll - 1) as nat) == 1);
}

/// The frontier of a path `p`: `p` itself together with the right sibling of
/// every left step along `p`.  When `p` is the node of the current period,
/// these are exactly the subtree roots whose intervals partition the periods
/// that are still to come.
pub open spec fn frontier(p: Seq<u8>) -> Set<Seq<u8>> {
    Set::new(
        |q: Seq<u8>|
            q == p || (exists|i: int|
                0 <= i < p.len() && p[i] == 1 && q == #[trigger] p.take(i).push(2u8)),
    )
}

/// Prepending a step to a path prepends it to every frontier member.
proof fn lemma_frontier_cons(b: u8, p: Seq<u8>, e: Seq<u8>)
    requires
        frontier(p).contains(e),
    ensures
        frontier(seq![b] + p).contains(seq![b] + e),
{
    let p2 = seq![b] + p;
    if e == p {
        assert(frontier(p2).contains(seq![b] + e));
    } else {
        let i = choose|i: int| 0 <= i < p.len() && p[i] == 1 && e == #[trigger] p.take(i).push(
            2u8,
        );
        assert(p2[i + 1] == p[i]);
        assert(p2.take(i + 1).push(2u8) =~= seq![b] + e);
        assert(frontier(p2).contains(seq![b] + e));
    }
}

/// The frontier of the current node covers every later period: some member
/// is a prefix of (an ancestor of, or equal to) the later period's node.
pub proof fn lemma_frontier_covers(t: nat, u: nat, l: nat)
    requires
        1 <= l,
        1 <= t <= u,
        u <= pow2(l) - 1,
    ensures
        exists|i: int|
            0 <= i <= spec_path_of(u, l).len() && frontier(spec_path_of(t, l)).contains(
                #[trigger] spec_path_of(u, l).take(i),
            ),
    decreases l,
{
    lemma2_to64();
    let p = spec_path_of(t, l);
    let q = spec_path_of(u, l);
    if t <= 1 {
        assert(p =~= Seq::<u8>::empty());
        assert(q.take(0) =~= p);
        assert(frontier(p).contains(q.take(0)));
    } else {
        assert(l >= 2);
        lemma_pow2_unfold(l);
        let half = pow2((l - 1) as nat);
        if u <= half {
            // Both nodes lie in the left subtree.
            let pr = spec_path_of((t - 1) as nat, (l - 1) as nat);
            let qr = spec_path_of((u - 1) as nat, (l - 1) as nat);
            lemma_frontier_covers((t - 1) as nat, (u - 1) as nat, (l - 1) as nat);
            let i = choose|i: int|
                0 <= i <= qr.len() && frontier(pr).contains(#[trigger] qr.take(i));
            lemma_frontier_cons(1u8, pr, qr.take(i));
            assert(q.take(i + 1) =~= seq![1u8] + qr.take(i));
            assert(frontier(p).contains(q.take(i + 1)));
        } else if t <= half {
            // The current node is in the left subtree, the later one in the
            // right: the root's right child is on the frontier.
            assert(p == seq![1u8] + spec_path_of((t - 1) as nat, (l - 1) as nat));
            assert(p[0] == 1);
            assert(p.take(0).push(2u8) =~= seq![2u8]);
            assert(q == seq![2u8] + spec_path_of((u - half) as nat, (l - 1) as nat));
            assert(q.take(1) =~= seq![2u8]);
            assert(frontier(p).contains(q.take(1)));
        } else {
            // Both nodes lie in the right subtree.
            let pr = spec_path_of((t - half) as nat, (l - 1) as nat);
            let qr = spec_path_of((u - half) as nat, (l - 1) as nat);
            lemma_frontier_covers((t - half) as nat, (u - half) as nat, (l - 1) as nat);
            let i = choose|i: int|
                0 <= i <= qr.len() && frontier(pr).contains(#[trigger] qr.take(i));
            lemma_frontier_cons(2u8, pr, qr.take(i));
            assert(q.take(i + 1) =~= seq![2u8] + qr.take(i));
            assert(frontier(p).contains(q.take(i + 1)));
        }
    }
}

/// Every frontier member is a well-formed path whose period is at least the
/// current one: nothing on the frontier reaches into the past.
pub proof fn lemma_frontier_at_or_after(p: Seq<u8>, e: Seq<u8>, l: nat)
    requires
        valid_path(p, l),
        frontier(p).contains(e),
    ensures
        valid_path(e, l),
        spec_node_num(e, l) >= spec_node_num(p, l),
{
    if e == p {
    } else {
        let i = choose|i: int| 0 <= i < p.len() && p[i] == 1 && e == #[trigger] p.take(i).push(
            2u8,
        );
        let stem = p.take(i);
        assert(valid_path(e, l));
        // The sibling's period: N(stem) + pow2(l - i - 1).
        assert(e =~= stem + seq![2u8]);
        lemma_node_num_concat(stem, seq![2u8], l);
        lemma_single_step_num(2u8, (l - i) as nat);
        // The current period: N(stem) + N(p.skip(i), l - i) - 1, where
        // p.skip(i) descends left, so its number stays within the left half.
        let sk = p.skip(i);
        assert(p =~= stem + sk);
        lemma_node_num_concat(stem, sk, l);
        assert(sk[0] == p[i]);
        let dk = sk.drop_first();
        assert(valid_path(dk, (l - i - 1) as nat));
        lemma_node_num_bounds(dk, (l - i - 1) as nat);
        lemma2_to64();
        lemma_pow2_strictly_increases(0, ((l - i - 1) - dk.len()) as nat);
        assert(spec_node_num(dk, (l - i - 1) as nat) <= pow2((l - i - 1) as nat) - 1);
        assert(spec_node_num(sk, (l - i) as nat) <= pow2((l - i - 1) as nat));
    }
}

/// A frontier member that is an ancestor of a later node shares with the
/// later node's own frontier every right sibling above it.
pub proof fn lemma_frontier_shared_siblings(p: Seq<u8>, q: Seq<u8>, m: int, i: int)
    requires
        0 <= m <= q.len(),
        frontier(p).contains(q.take(m)),
        0 <= i < m,
        q[i] == 1,
    ensures
        frontier(p).contains(q.take(i).push(2u8)),
{
    let a = q.take(m);
    if a == p {
        assert(q.take(i) =~= p.take(i));
        assert(p[i] == a[i]);
        assert(a[i] == q[i]);
        assert(frontier(p).contains(p.take(i).push(2u8)));
    } else {
        let j = choose|j: int| 0 <= j < p.len() && p[j] == 1 && a == #[trigger] p.take(j).push(
            2u8,
        );
        assert(a.len() == m);
        assert(p.take(j).push(2u8).len() == j + 1);
        assert(m == j + 1);
        if i == j {
            assert(a[j] == 2);
            assert(a[j] == q[j]);
            assert(false);
        } else {
            assert(i < j);
            assert(q.take(i) =~= p.take(i));
            assert(q[i] == a[i]);
            assert(a[i] == p[i]);
            assert(frontier(p).contains(p.take(i).push(2u8)));
        }
    }
}

/// The frontier of the all-right spine is that single node: once the last
/// period is reached, nothing else remains derivable.
pub proof fn lemma_frontier_all_twos(p: Seq<u8>)
    requires
        forall|i: int| 0 <= i < p.len() ==> p[i] == 2,
    ensures
        forall|e: Seq<u8>| frontier(p).contains(e) <==> e == p,
{
}

/// Whether `e` lies on the frontier of `q`, decided by plain comparison.
pub fn is_frontier_member(e: &Vec<u8>, q: &Vec<u8>) -> (r: bool)
    ensures
        r == frontier(q@).contains(e@),
{
    if e.len() == q.len() && prefix_matches(e, q, e.len()) {
        proof {
            assert(e@ =~= q@);
        }
        return true;
    }
    if 1 <= e.len() && e.len() <= q.len() && q[e.len() - 1] == 1 && e[e.len() - 1] == 2
        && prefix_matches(e, q, e.len() - 1) {
        proof {
            let i = e@.len() - 1;
            assert(e@ =~= q@.take(i).push(2u8));
            assert(frontier(q@).contains(e@));
        }
        return true;
    }
    proof {
        if frontier(q@).contains(e@) {
            if e@ == q@ {
                assert(false);
            } else {
                let i = choose|i: int|
                    0 <= i < q@.len() && q@[i] == 1 && e@ == #[trigger] q@.take(i).push(2u8);
                assert(e@.len() == i + 1);
                assert(e@[i] == 2);
                assert(forall|k: int| 0 <= k < i ==> e@[k] == q@[k]);
                assert(false);
            }
        }
    }
    false
}

/// Whether the first `k` steps of two paths agree.
pub(crate) fn prefix_matches(a: &Vec<u8>, b: &Vec<u8>, k: usize) -> (r: bool)
    requires
        k <= a@.len(),
        k <= b@.len(),
    ensures
        r == (forall|i: int| 0 <= i < k ==> a@[i] == b@[i]),
{
    let mut i: usize = 0;
    while i < k
        invariant
            i <= k <= a@.len(),
            k <= b@.len(),
            forall|j: int| 0 <= j < i ==> a@[j] == b@[j],
        decreases k - i,
    {
        if a[i] != b[i] {
            return false;
        }
        i = i + 1;
    }
    true
}

/// The period of the node at a well-formed path, rejecting malformed paths
/// with `InvalidPath`.
pub fn path_to_node_num(path: &Vec<u8>, l: u8) -> (r: Result<u128, ForwardSecureSignatureError>)
    requires
        l <= 127,
    ensures
        valid_path(path@, l as nat) <==> r is Ok,
        r matches Ok(n) ==> n == spec_node_num(path@, l as nat) && 1 <= n <= pow2(l as nat) - 1,
        r matches Err(e) ==> e matches ForwardSecureSignatureError::InvalidPath {
            path: ep,
            l: el,
        } && ep@ == path@ && el == l,
{
    if path.len() >= l as usize {
        return Err(ForwardSecureSignatureError::InvalidPath { path: path.clone(), l });
    }
    let mut j: usize = 0;
    while j < path.len()
        invariant
            j <= path@.len(),
            forall|i: int| 0 <= i < j ==> path@[i] == 1 || path@[i] == 2,
        decreases path@.len() - j,
    {
        if path[j] != 1 && path[j] != 2 {
            return Err(ForwardSecureSignatureError::InvalidPath { path: path.clone(), l });
        }
        j = j + 1;
    }
    assert(valid_path(path@, l as nat));
    proof {
        lemma_node_num_bounds(path@, l as nat);
        lemma_pow2_127_value();
        assert(path@.skip(path@.len() as int) =~= Seq::<u8>::empty());
    }
    let mut acc: u128 = 1;
    let mut i: usize = path.len();
    while i > 0
        invariant
            i <= path@.len(),
            valid_path(path@, l as nat),
            l <= 127,
            pow2(127) == 0x80000000000000000000000000000000,
            acc == spec_node_num(path@.skip(i as int), (l - i) as nat),
        decreases i,
    {
        let idx = i - 1;
        let level = l - (idx as u8);
        proof {
            let sk = path@.skip(idx as int);
            assert(sk.drop_first() =~= path@.skip(i as int));
            assert(sk[0] == path@[idx as int]);
            assert(valid_path(sk, level as nat));
            lemma_node_num_bounds(sk, level as nat);
            if (level as nat) < 127 {
                lemma_pow2_strictly_increases(level as nat, 127);
            }
            lemma_pow2_pos((level - 1) as nat);
            lemma_pow2_unfold(level as nat);
        }
        if path[idx] == 1 {
            acc = acc + 1;
        } else {
            let half = pow2_u128(level - 1);
            acc = acc + half;
        }
        i = idx;
    }
    proof {
        assert(path@.skip(0) =~= path@);
        lemma_node_num_bounds(path@, l as nat);
        lemma2_to64();
        lemma_pow2_strictly_increases(0, (l - path@.len()) as nat);
    }
    Ok(acc)
}

/// The contiguous interval of periods covered by the subtree rooted at a
/// well-formed path: its own period through the end of its subtree.
pub fn interval_of(path: &Vec<u8>, l: u8) -> (r: Result<
    (u128, u128),
    ForwardSecureSignatureError,
>)
    requires
        l <= 127,
    ensures
        valid_path(path@, l as nat) <==> r is Ok,
        r matches Ok(iv) ==> iv.0 == spec_node_num(path@, l as nat) && iv.1 == iv.0 + pow2(
            (l - path@.len()) as nat,
        ) - 2 && iv.1 <= pow2(l as nat) - 1,
        r matches Err(e) ==> e matches ForwardSecureSignatureError::InvalidPath {
            path: ep,
            l: el,
        } && ep@ == path@ && el == l,
{
    let n = match path_to_node_num(path, l) {
        Ok(n) => n,
        Err(e) => {
            return Err(e);
        },
    };
    proof {
        lemma_node_num_bounds(path@, l as nat);
        lemma_pow2_127_value();
        lemma2_to64();
        if ((l - path@.len()) as nat) < 127 {
            lemma_pow2_strictly_increases((l - path@.len()) as nat, 127);
        }
        if (l as nat) < 127 {
            lemma_pow2_strictly_increases(l as nat, 127);
        }
        lemma_pow2_strictly_increases(0, (l - path@.len()) as nat);
    }
    let width = pow2_u128(l - (path.len() as u8));
    Ok((n, n + (width - 2)))
}

/// Whether `p` is an ancestor of (or equal to) `q`: a prefix of it.
pub fn is_ancestor(p: &Vec<u8>, q: &Vec<u8>) -> (r: bool)
    ensures
        r == (p@.len() <= q@.len() && p@ == q@.take(p@.len() as int)),
{
    if p.len() > q.len() {
        return false;
    }
    let r = prefix_matches(p, q, p.len());
    proof {
        if r {
            assert(p@ =~= q@.take(p@.len() as int));
        } else {
            assert(p@ != q@.take(p@.len() as int));
        }
    }
    r
}

/// The lowest common ancestor of two nodes: the longest common prefix of
/// their paths.
pub fn lca(p: &Vec<u8>, q: &Vec<u8>) -> (r: Vec<u8>)
    ensures
        r@.len() <= p@.len() && r@.len() <= q@.len(),
        r@ == p@.take(r@.len() as int),
        r@ == q@.take(r@.len() as int),
        r@.len() < p@.len() && r@.len() < q@.len() ==> p@[r@.len() as int] != q@[r@.len() as int],
{
    let mut r: Vec<u8> = Vec::new();
    while r.len() < p.len() && r.len() < q.len() && p[r.len()] == q[r.len()]
        invariant
            r@.len() <= p@.len(),
            r@.len() <= q@.len(),
            r@ =~= p@.take(r@.len() as int),
            r@ =~= q@.take(r@.len() as int),
        decreases p@.len() - r@.len(),
    {
        let b = p[r.len()];
        r.push(b);
        proof {
            assert(r@ =~= p@.take(r@.len() as int));
            assert(r@ =~= q@.take(r@.len() as int));
        }
    }
    r
}

/// The path of the node assigned to period `t`, rejecting periods outside
/// `[1, 2^l - 1]` with `InvalidNodeNum`.
pub fn from_node_num_to_path(t: u128, l: u8) -> (r: Result<
    Vec<u8>,
    ForwardSecureSignatureError,
>)
    requires
        l <= 127,
    ensures
        (1 <= t <= pow2(l as nat) - 1) <==> r is Ok,
        r matches Ok(p) ==> p@ == spec_path_of(t as nat, l as nat) && valid_path(p@, l as nat),
        r matches Err(e) ==> e == (ForwardSecureSignatureError::InvalidNodeNum { t, l }),
{
    proof {
        lemma_pow2_pos(l as nat);
    }
    let max = pow2_u128(l) - 1;
    if t < 1 || t > max {
        return Err(ForwardSecureSignatureError::InvalidNodeNum { t, l });
    }
    Ok(node_num_to_path(t, l))
}

} // verus!
