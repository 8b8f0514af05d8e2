use vstd::prelude::*;
use vstd::arithmetic::div_mod::{lemma_div_denominator, lemma_div_is_ordered};

use crate::order_key::{is_nan, is_nan_bits, lemma_nan_fields};
use crate::stable_sort::{merge_sort, no_repeats, ranks_before, strictly_ascending};

verus! {

broadcast use vstd::seq_lib::group_to_multiset_ensures;

/// A star as the partition sees it: its index in the caller's star list and,
/// on each axis, an integer key whose order is the order of its coordinate.
#[derive(Clone, Copy, Debug)]
pub struct StarKey {
    pub id: usize,
    pub x: u32,
    pub y: u32,
    pub z: u32,
}

/// The key of a star on an axis: 0 is x, 1 is y, 2 is z.
pub open spec fn key_on(s: StarKey, axis: nat) -> u32 {
    if axis == 0 {
        s.x
    } else if axis == 1 {
        s.y
    } else {
        s.z
    }
}

/// Positions `a` and `b` of `s` come in this order in a stable sort on `axis`:
/// by key, and by position among equal keys.
pub open spec fn placed_before(s: Seq<StarKey>, axis: nat, a: int, b: int) -> bool {
    key_on(s[a], axis) < key_on(s[b], axis) || (key_on(s[a], axis) == key_on(s[b], axis) && a
        < b)
}

/// `t` lists the stars of `s` ordered by their key on `axis`, stars with equal
/// keys in the order in which they stand in `s`; `t[i]` stands at `p[i]` in `s`.
pub open spec fn is_stable_sort(t: Seq<StarKey>, s: Seq<StarKey>, axis: nat, p: Seq<int>) -> bool {
    &&& t.len() == s.len()
    &&& p.len() == s.len()
    &&& forall|i: int| 0 <= i < t.len() ==> 0 <= #[trigger] p[i] < s.len() && t[i] == s[p[i]]
    &&& forall|k: int| 0 <= k < s.len() ==> #[trigger] p.contains(k)
    &&& forall|i: int, j: int|
        0 <= i < j < t.len() ==> key_on(#[trigger] t[i], axis) <= key_on(#[trigger] t[j], axis)
    &&& forall|i: int, j: int|
        0 <= i < j < t.len() && key_on(t[i], axis) == key_on(t[j], axis) ==> #[trigger] p[i]
            < #[trigger] p[j]
}

/// `t` is a stable sort of `s` on `axis`.
pub open spec fn sorts_stably(t: Seq<StarKey>, s: Seq<StarKey>, axis: nat) -> bool {
    exists|p: Seq<int>| #[trigger] is_stable_sort(t, s, axis, p)
}

/// The stable sort of `s` on `axis` (there is exactly one: see
/// `lemma_stable_sort_unique`).
pub open spec fn stably_sorted(s: Seq<StarKey>, axis: nat) -> Seq<StarKey> {
    choose|t: Seq<StarKey>| #[trigger] sorts_stably(t, s, axis)
}

/// In a stable sort, earlier positions of the result come from positions of
/// the input that are placed before.
proof fn lemma_stable_sort_order(t: Seq<StarKey>, s: Seq<StarKey>, axis: nat, p: Seq<int>)
    requires
        is_stable_sort(t, s, axis, p),
    ensures
        forall|i: int, j: int|
            0 <= i < j < t.len() ==> placed_before(s, axis, #[trigger] p[i], #[trigger] p[j]),
{
    assert forall|i: int, j: int| 0 <= i < j < t.len() implies placed_before(
        s,
        axis,
        #[trigger] p[i],
        #[trigger] p[j],
    ) by {
        assert(key_on(t[i], axis) <= key_on(t[j], axis));
        assert(t[i] == s[p[i]] && t[j] == s[p[j]]);
    }
}

/// Two stable sorts of the same sequence on the same axis are equal.
pub proof fn lemma_stable_sort_unique(
    t1: Seq<StarKey>,
    p1: Seq<int>,
    t2: Seq<StarKey>,
    p2: Seq<int>,
    s: Seq<StarKey>,
    axis: nat,
)
    requires
        is_stable_sort(t1, s, axis, p1),
        is_stable_sort(t2, s, axis, p2),
    ensures
        t1 == t2,
{
    lemma_stable_sort_order(t1, s, axis, p1);
    lemma_stable_sort_order(t2, s, axis, p2);
    lemma_positions_agree(t1, p1, t2, p2, s, axis, s.len() as int);
    assert forall|i: int| 0 <= i < t1.len() implies t1[i] == t2[i] by {
        assert(p1[i] == p2[i]);
    }
    assert(t1 =~= t2);
}

proof fn lemma_positions_agree(
    t1: Seq<StarKey>,
    p1: Seq<int>,
    t2: Seq<StarKey>,
    p2: Seq<int>,
    s: Seq<StarKey>,
    axis: nat,
    n: int,
)
    requires
        is_stable_sort(t1, s, axis, p1),
        is_stable_sort(t2, s, axis, p2),
        forall|i: int, j: int|
            0 <= i < j < t1.len() ==> placed_before(s, axis, #[trigger] p1[i], #[trigger] p1[j]),
        forall|i: int, j: int|
            0 <= i < j < t2.len() ==> placed_before(s, axis, #[trigger] p2[i], #[trigger] p2[j]),
        0 <= n <= s.len(),
    ensures
        forall|i: int| 0 <= i < n ==> p1[i] == p2[i],
    decreases n,
{
    if n > 0 {
        lemma_positions_agree(t1, p1, t2, p2, s, axis, n - 1);
        let m = n - 1;
        let a = p1[m];
        let b = p2[m];
        if a != b {
            if placed_before(s, axis, a, b) {
                assert(p2.contains(a));
                let j = choose|j: int| 0 <= j < p2.len() && #[trigger] p2[j] == a;
                if j < m {
                    assert(p1[j] == a);
                    assert(placed_before(s, axis, p1[j], p1[m]));
                } else if j > m {
                    assert(placed_before(s, axis, p2[m], p2[j]));
                }
            } else {
                assert(p1.contains(b));
                let j = choose|j: int| 0 <= j < p1.len() && #[trigger] p1[j] == b;
                if j < m {
                    assert(p2[j] == b);
                    assert(placed_before(s, axis, p2[j], p2[m]));
                } else if j > m {
                    assert(placed_before(s, axis, p1[m], p1[j]));
                }
            }
        }
    }
}

/// A reordering of `s` through a bijection of its positions has the same
/// multiset of elements.
proof fn lemma_reordering_multiset(t: Seq<StarKey>, s: Seq<StarKey>, p: Seq<int>)
    requires
        t.len() == s.len(),
        p.len() == s.len(),
        forall|i: int| 0 <= i < t.len() ==> 0 <= #[trigger] p[i] < s.len() && t[i] == s[p[i]],
        forall|k: int| 0 <= k < s.len() ==> #[trigger] p.contains(k),
        forall|i: int, j: int| 0 <= i < j < p.len() ==> #[trigger] p[i] != #[trigger] p[j],
    ensures
        t.to_multiset() == s.to_multiset(),
    decreases s.len(),
{
    broadcast use vstd::multiset::group_multiset_axioms;

    if s.len() == 0 {
        assert(t =~= s);
    } else {
        let n = s.len() as int;
        assert(p.contains(n - 1));
        let i0 = choose|i: int| 0 <= i < p.len() && #[trigger] p[i] == n - 1;
        let t2 = t.remove(i0);
        let p2 = p.remove(i0);
        let s2 = s.drop_last();
        assert forall|i: int| 0 <= i < t2.len() implies 0 <= #[trigger] p2[i] < s2.len() && t2[i]
            == s2[p2[i]] by {
            if i < i0 {
                assert(p2[i] == p[i] && t2[i] == t[i]);
                assert(p[i] != p[i0]);
            } else {
                assert(p2[i] == p[i + 1] && t2[i] == t[i + 1]);
                assert(p[i0] != p[i + 1]);
            }
        }
        assert forall|k: int| 0 <= k < s2.len() implies #[trigger] p2.contains(k) by {
            assert(p.contains(k));
            let i = choose|i: int| 0 <= i < p.len() && #[trigger] p[i] == k;
            if i < i0 {
                assert(p2[i] == k);
            } else {
                assert(i != i0);
                assert(p2[i - 1] == k);
                assert(p2.contains(k));
            }
        }
        assert forall|i: int, j: int| 0 <= i < j < p2.len() implies #[trigger] p2[i]
            != #[trigger] p2[j] by {
            let a = if i < i0 { i } else { i + 1 };
            let b = if j < i0 { j } else { j + 1 };
            assert(p2[i] == p[a] && p2[j] == p[b]);
        }
        lemma_reordering_multiset(t2, s2, p2);
        assert(s =~= s2.push(s[n - 1]));
        assert(t[i0] == s[n - 1]);
        assert(t2.to_multiset() =~= t.to_multiset().remove(t[i0]));
        assert(t.to_multiset().count(t[i0]) > 0);
        assert(t.to_multiset() =~= t2.to_multiset().insert(t[i0]));
    }
}

/// A stable sort keeps the multiset of stars.
pub proof fn lemma_stable_sort_multiset(t: Seq<StarKey>, s: Seq<StarKey>, axis: nat, p: Seq<int>)
    requires
        is_stable_sort(t, s, axis, p),
    ensures
        t.to_multiset() == s.to_multiset(),
{
    lemma_stable_sort_order(t, s, axis, p);
    lemma_reordering_multiset(t, s, p);
}

/// The number of leading stars of `t` whose key on `axis` is at most `k`,
/// when `t` is sorted on `axis`.
spec fn split_point(t: Seq<StarKey>, axis: nat, k: u32) -> nat
    decreases t.len(),
{
    if t.len() == 0 {
        0
    } else if key_on(t.last(), axis) <= k {
        t.len()
    } else {
        split_point(t.drop_last(), axis, k)
    }
}

proof fn lemma_split_point(t: Seq<StarKey>, axis: nat, k: u32)
    requires
        forall|i: int, j: int|
            0 <= i < j < t.len() ==> key_on(#[trigger] t[i], axis) <= key_on(#[trigger] t[j], axis),
    ensures
        split_point(t, axis, k) <= t.len(),
        forall|i: int| 0 <= i < split_point(t, axis, k) ==> key_on(#[trigger] t[i], axis) <= k,
        forall|i: int| split_point(t, axis, k) <= i < t.len() ==> key_on(#[trigger] t[i], axis) > k,
    decreases t.len(),
{
    if t.len() > 0 {
        if key_on(t.last(), axis) <= k {
            assert forall|i: int| 0 <= i < t.len() implies key_on(#[trigger] t[i], axis) <= k by {
                if i < t.len() - 1 {
                    assert(key_on(t[i], axis) <= key_on(t[t.len() - 1], axis));
                }
            }
        } else {
            let u = t.drop_last();
            assert forall|i: int, j: int| 0 <= i < j < u.len() implies key_on(#[trigger] u[i], axis)
                <= key_on(#[trigger] u[j], axis) by {
                assert(u[i] == t[i] && u[j] == t[j]);
            }
            lemma_split_point(u, axis, k);
            assert forall|i: int| 0 <= i < split_point(t, axis, k) implies key_on(
                #[trigger] t[i],
                axis,
            ) <= k by {
                assert(u[i] == t[i]);
            }
            assert forall|i: int| split_point(t, axis, k) <= i < t.len() implies key_on(
                #[trigger] t[i],
                axis,
            ) > k by {
                if i < t.len() - 1 {
                    assert(u[i] == t[i]);
                }
            }
        }
    }
}

/// Every sequence has a stable sort on every axis.
pub proof fn lemma_stable_sort_exists(s: Seq<StarKey>, axis: nat)
    ensures
        sorts_stably(stably_sorted(s, axis), s, axis),
    decreases s.len(),
{
    if s.len() == 0 {
        let p = Seq::<int>::empty();
        assert(is_stable_sort(s, s, axis, p));
        assert(sorts_stably(s, s, axis));
    } else {
        let n = s.len() as int;
        let s0 = s.drop_last();
        let e = s[n - 1];
        lemma_stable_sort_exists(s0, axis);
        let t0 = stably_sorted(s0, axis);
        let p0 = choose|p: Seq<int>| is_stable_sort(t0, s0, axis, p);
        let q = split_point(t0, axis, key_on(e, axis)) as int;
        lemma_split_point(t0, axis, key_on(e, axis));
        let t = t0.insert(q, e);
        let p = p0.insert(q, n - 1);
        assert forall|i: int| 0 <= i < t.len() implies 0 <= #[trigger] p[i] < s.len() && t[i]
            == s[p[i]] by {
            if i < q {
                assert(t[i] == t0[i] && p[i] == p0[i]);
                assert(s0[p0[i]] == s[p0[i]]);
            } else if i > q {
                assert(t[i] == t0[i - 1] && p[i] == p0[i - 1]);
                assert(s0[p0[i - 1]] == s[p0[i - 1]]);
            }
        }
        assert forall|k: int| 0 <= k < s.len() implies #[trigger] p.contains(k) by {
            if k == n - 1 {
                assert(p[q] == k);
            } else {
                assert(p0.contains(k));
                let i = choose|i: int| 0 <= i < p0.len() && p0[i] == k;
                if i < q {
                    assert(p[i] == k);
                } else {
                    assert(p[i + 1] == k);
                }
            }
        }
        assert forall|i: int, j: int| 0 <= i < j < t.len() implies key_on(#[trigger] t[i], axis)
            <= key_on(#[trigger] t[j], axis) by {
            if j < q {
                assert(t[i] == t0[i] && t[j] == t0[j]);
            } else if j == q {
                assert(t[i] == t0[i]);
            } else if i < q {
                assert(t[i] == t0[i] && t[j] == t0[j - 1]);
            } else if i == q {
                assert(t[j] == t0[j - 1]);
            } else {
                assert(t[i] == t0[i - 1] && t[j] == t0[j - 1]);
            }
        }
        assert forall|i: int, j: int|
            0 <= i < j < t.len() && key_on(t[i], axis) == key_on(t[j], axis) implies #[trigger] p[i]
            < #[trigger] p[j] by {
            if j < q {
                assert(t[i] == t0[i] && t[j] == t0[j]);
                assert(p[i] == p0[i] && p[j] == p0[j]);
            } else if j == q {
                assert(p[i] == p0[i]);
            } else if i < q {
                assert(t[i] == t0[i] && t[j] == t0[j - 1]);
                assert(p[i] == p0[i] && p[j] == p0[j - 1]);
            } else if i == q {
                assert(t[j] == t0[j - 1]);
            } else {
                assert(t[i] == t0[i - 1] && t[j] == t0[j - 1]);
                assert(p[i] == p0[i - 1] && p[j] == p0[j - 1]);
            }
        }
        assert(is_stable_sort(t, s, axis, p));
        assert(sorts_stably(t, s, axis));
    }
}

/// The axis that a split with `r` recursions left sorts on: x, then z, then y,
/// as `r` goes down.
pub open spec fn axis_for(r: nat) -> nat {
    r % 3
}

/// Two to the power `r`.
pub open spec fn two_pow(r: nat) -> nat
    decreases r,
{
    if r == 0 {
        1
    } else {
        2 * two_pow((r - 1) as nat)
    }
}

/// The sectors that `r` rounds of halving make of `s`: with no round left,
/// `s` is one sector; otherwise `s` is stably sorted on the axis of the round,
/// and its lower half (the smaller when the length is odd) and its upper half
/// are divided further, the sectors of the lower half first.
pub open spec fn sectors_of(s: Seq<StarKey>, r: nat) -> Seq<Seq<StarKey>>
    decreases r,
{
    if r == 0 {
        seq![s]
    } else {
        let t = stably_sorted(s, axis_for(r));
        let h = t.len() / 2;
        sectors_of(t.take(h as int), (r - 1) as nat) + sectors_of(t.skip(h as int), (r - 1) as nat)
    }
}

/// The contents of each sector in a list of sectors.
pub open spec fn sector_views(v: Seq<Vec<StarKey>>) -> Seq<Seq<StarKey>> {
    v.map_values(|x: Vec<StarKey>| x@)
}

fn key_of(s: &StarKey, axis: u8) -> (k: u32)
    requires
        axis < 3,
    ensures
        k == key_on(*s, axis as nat),
{
    if axis == 0 {
        s.x
    } else if axis == 1 {
        s.y
    } else {
        s.z
    }
}

/// Sorts the stars by their key on `axis`, keeping stars with equal keys in
/// their order.
pub fn sort_on_axis(s: &Vec<StarKey>, axis: u8) -> (t: Vec<StarKey>)
    requires
        axis < 3,
    ensures
        sorts_stably(t@, s@, axis as nat),
        t@ == stably_sorted(s@, axis as nat),
        t@.to_multiset() == s@.to_multiset(),
        forall|i: int, j: int|
            0 <= i < j < t@.len() ==> (if axis == 0 {
                (#[trigger] t@[i]).x <= (#[trigger] t@[j]).x
            } else if axis == 1 {
                t@[i].y <= t@[j].y
            } else {
                t@[i].z <= t@[j].z
            }),
{
    let n = s.len();
    let ghost ax = axis as nat;
    let mut ranked: Vec<(u32, usize)> = Vec::new();
    let mut i: usize = 0;
    while i < n
        invariant
            n == s@.len(),
            axis < 3,
            ax == axis as nat,
            i <= n,
            ranked@.len() == i,
            forall|k: int| 0 <= k < i ==> #[trigger] ranked@[k] == (key_on(s@[k], ax), k as usize),
        decreases n - i,
    {
        let k = key_of(&s[i], axis);
        ranked.push((k, i));
        i = i + 1;
    }
    let ghost ranked_view = ranked@;
    assert(no_repeats(ranked@)) by {
        assert forall|a: int, b: int| 0 <= a < b < ranked@.len() implies #[trigger] ranked@[a]
            != #[trigger] ranked@[b] by {
            assert(ranked@[a].1 == a && ranked@[b].1 == b);
        }
    }
    let sorted = merge_sort(ranked);
    assert forall|k: int| 0 <= k < n implies (#[trigger] sorted@[k]).1 < n && sorted@[k].0
        == key_on(s@[sorted@[k].1 as int], ax) by {
        assert(sorted@.contains(sorted@[k]));
        assert(ranked_view.contains(sorted@[k]));
        let j = choose|j: int| 0 <= j < ranked_view.len() && ranked_view[j] == sorted@[k];
        assert(ranked_view[j] == (key_on(s@[j], ax), j as usize));
    }
    let mut t: Vec<StarKey> = Vec::new();
    let mut i: usize = 0;
    while i < n
        invariant
            n == s@.len(),
            sorted@.len() == n,
            i <= n,
            t@.len() == i,
            forall|k: int| 0 <= k < n ==> (#[trigger] sorted@[k]).1 < n,
            forall|k: int| 0 <= k < i ==> #[trigger] t@[k] == s@[sorted@[k].1 as int],
        decreases n - i,
    {
        let pos = sorted[i].1;
        t.push(s[pos]);
        i = i + 1;
    }
    proof {
        let p = Seq::new(n as nat, |k: int| sorted@[k].1 as int);
        assert forall|k: int| 0 <= k < n implies #[trigger] p.contains(k) by {
            assert(ranked_view[k] == (key_on(s@[k], ax), k as usize));
            assert(ranked_view.contains(ranked_view[k]));
            assert(sorted@.contains(ranked_view[k]));
            let i = choose|i: int| 0 <= i < sorted@.len() && sorted@[i] == ranked_view[k];
            assert(p[i] == k);
        }
        assert forall|a: int, b: int| 0 <= a < b < t@.len() implies key_on(#[trigger] t@[a], ax)
            <= key_on(#[trigger] t@[b], ax) by {
            assert(ranks_before(sorted@[a], sorted@[b]));
        }
        assert forall|a: int, b: int|
            0 <= a < b < t@.len() && key_on(t@[a], ax) == key_on(t@[b], ax) implies #[trigger] p[a]
            < #[trigger] p[b] by {
            assert(ranks_before(sorted@[a], sorted@[b]));
        }
        assert(is_stable_sort(t@, s@, ax, p));
        assert(sorts_stably(t@, s@, ax));
        let t2 = stably_sorted(s@, ax);
        assert(sorts_stably(t2, s@, ax));
        let p2 = choose|p2: Seq<int>| is_stable_sort(t2, s@, ax, p2);
        lemma_stable_sort_unique(t@, p, t2, p2, s@, ax);
        lemma_stable_sort_multiset(t@, s@, ax, p);
        lemma_sorted_on_fields(s@, ax);
    }
    t
}

/// Divides the stars into `2^recursions_left` sectors by halving them
/// `recursions_left` times, each time along the axis of `axis_for`.
pub fn make_sectors(star_list: Vec<StarKey>, recursions_left: u32) -> (sectors: Vec<Vec<StarKey>>)
    requires
        recursions_left < 32,
        recursions_left == 0 || two_pow(recursions_left as nat) <= star_list@.len(),
    ensures
        sector_views(sectors@) == sectors_of(star_list@, recursions_left as nat),
    decreases recursions_left,
{
    if recursions_left > 0 {
        let axis: u8 = (recursions_left % 3) as u8;
        let sorted = sort_on_axis(&star_list, axis);
        let ghost t = sorted@;
        let mut lower = sorted;
        let half = lower.len() / 2;
        let upper = lower.split_off(half);
        proof {
            let rest = (recursions_left - 1) as nat;
            assert(two_pow(recursions_left as nat) == 2 * two_pow(rest));
            let p = choose|p: Seq<int>| is_stable_sort(t, star_list@, axis as nat, p);
            assert(t.len() == star_list@.len());
            assert(lower@ =~= t.take(half as int));
            assert(upper@ =~= t.skip(half as int));
        }
        let mut sectors = make_sectors(lower, recursions_left - 1);
        let mut upper_sectors = make_sectors(upper, recursions_left - 1);
        let ghost lower_view = sectors@;
        let ghost upper_view = upper_sectors@;
        sectors.append(&mut upper_sectors);
        proof {
            assert(sector_views(sectors@) =~= sector_views(lower_view) + sector_views(upper_view));
        }
        sectors
    } else {
        let mut sectors: Vec<Vec<StarKey>> = Vec::new();
        let ghost s = star_list@;
        sectors.push(star_list);
        proof {
            assert(sector_views(sectors@) =~= seq![s]);
        }
        sectors
    }
}

proof fn lemma_two_pow_positive(r: nat)
    ensures
        two_pow(r) >= 1,
    decreases r,
{
    if r > 0 {
        lemma_two_pow_positive((r - 1) as nat);
    }
}

/// The stable sort of `s` has the length of `s`.
proof fn lemma_stably_sorted_len(s: Seq<StarKey>, axis: nat)
    ensures
        stably_sorted(s, axis).len() == s.len(),
{
    lemma_stable_sort_exists(s, axis);
    let t = stably_sorted(s, axis);
    let p = choose|p: Seq<int>| is_stable_sort(t, s, axis, p);
}

proof fn lemma_flatten_concat(a: Seq<Seq<StarKey>>, b: Seq<Seq<StarKey>>)
    ensures
        (a + b).flatten() == a.flatten() + b.flatten(),
    decreases a.len(),
{
    if a.len() == 0 {
        assert(a + b =~= b);
        assert(a.flatten() + b.flatten() =~= b.flatten());
    } else {
        lemma_flatten_concat(a.drop_first(), b);
        assert((a + b).drop_first() =~= a.drop_first() + b);
        assert((a + b).first() == a.first());
        assert((a + b).flatten() =~= a.first() + (a.drop_first().flatten() + b.flatten()));
    }
}

/// Halving `r` times makes `2^r` sectors, whatever the stars.
pub proof fn lemma_sector_count(s: Seq<StarKey>, r: nat)
    ensures
        sectors_of(s, r).len() == two_pow(r),
    decreases r,
{
    if r > 0 {
        let t = stably_sorted(s, axis_for(r));
        let h = t.len() / 2;
        lemma_sector_count(t.take(h as int), (r - 1) as nat);
        lemma_sector_count(t.skip(h as int), (r - 1) as nat);
    }
}

/// The sectors hold exactly the stars that were divided, each as often as it
/// was given: no star is lost, none is added.
pub proof fn lemma_sectors_keep_stars(s: Seq<StarKey>, r: nat)
    ensures
        sectors_of(s, r).flatten().to_multiset() == s.to_multiset(),
    decreases r,
{
    broadcast use vstd::seq_lib::lemma_multiset_commutative;

    if r == 0 {
        assert(seq![s].flatten() =~= s) by {
            seq![s].lemma_flatten_one_element();
        }
    } else {
        let ax = axis_for(r);
        let t = stably_sorted(s, ax);
        let h = (t.len() / 2) as int;
        let lower = sectors_of(t.take(h), (r - 1) as nat);
        let upper = sectors_of(t.skip(h), (r - 1) as nat);
        lemma_sectors_keep_stars(t.take(h), (r - 1) as nat);
        lemma_sectors_keep_stars(t.skip(h), (r - 1) as nat);
        lemma_flatten_concat(lower, upper);
        assert(t.take(h) + t.skip(h) =~= t);
        lemma_stable_sort_exists(s, ax);
        let p = choose|p: Seq<int>| is_stable_sort(t, s, ax, p);
        lemma_stable_sort_multiset(t, s, ax, p);
    }
}

/// After a split, every star in the sectors of the lower half has a key on the
/// split's axis at most that of every star in the sectors of the upper half.
pub proof fn lemma_halves_are_separated(s: Seq<StarKey>, r: nat)
    requires
        r > 0,
    ensures
        forall|a: StarKey, b: StarKey|
            #![trigger sectors_of(s, r).take(two_pow((r - 1) as nat) as int).flatten().contains(a), sectors_of(s, r).skip(two_pow((r - 1) as nat) as int).flatten().contains(b)]
            sectors_of(s, r).take(two_pow((r - 1) as nat) as int).flatten().contains(a)
                && sectors_of(s, r).skip(two_pow((r - 1) as nat) as int).flatten().contains(b)
                ==> key_on(a, axis_for(r)) <= key_on(b, axis_for(r)),
{
    let ax = axis_for(r);
    let m = two_pow((r - 1) as nat) as int;
    let t = stably_sorted(s, ax);
    let h = (t.len() / 2) as int;
    let lower = sectors_of(t.take(h), (r - 1) as nat);
    let upper = sectors_of(t.skip(h), (r - 1) as nat);
    lemma_sector_count(t.take(h), (r - 1) as nat);
    assert(sectors_of(s, r).take(m) =~= lower);
    assert(sectors_of(s, r).skip(m) =~= upper);
    lemma_sectors_keep_stars(t.take(h), (r - 1) as nat);
    lemma_sectors_keep_stars(t.skip(h), (r - 1) as nat);
    lemma_stable_sort_exists(s, ax);
    let p = choose|p: Seq<int>| is_stable_sort(t, s, ax, p);
    assert forall|a: StarKey, b: StarKey|
        lower.flatten().contains(a) && upper.flatten().contains(b) implies key_on(a, ax) <= key_on(
        b,
        ax,
    ) by {
        assert(lower.flatten().to_multiset().count(a) > 0);
        assert(t.take(h).contains(a));
        assert(upper.flatten().to_multiset().count(b) > 0);
        assert(t.skip(h).contains(b));
        let i = choose|i: int| 0 <= i < h && t.take(h)[i] == a;
        let j = choose|j: int| 0 <= j < t.len() - h && t.skip(h)[j] == b;
        assert(t[i] == a && t[h + j] == b);
    }
}

proof fn lemma_halving_bounds(n: int, m: int, len: int, half: int)
    requires
        0 <= n,
        m >= 1,
        half == n / 2 || half == n - n / 2,
        half / m <= len <= (half + m - 1) / m,
    ensures
        n / (2 * m) <= len <= (n + 2 * m - 1) / (2 * m),
{
    lemma_div_denominator(n, 2, m);
    lemma_div_denominator(n + 2 * m - 1, 2, m);
    lemma_div_is_ordered(n / 2, half, m);
    assert(half + m - 1 <= (n + 2 * m - 1) / 2);
    lemma_div_is_ordered(half + m - 1, (n + 2 * m - 1) / 2, m);
}

/// The sectors are balanced: each holds the number of stars divided by the
/// number of sectors, rounded down or up.
pub proof fn lemma_sectors_balanced(s: Seq<StarKey>, r: nat)
    ensures
        forall|i: int|
            0 <= i < sectors_of(s, r).len() ==> s.len() / two_pow(r) <= (#[trigger] sectors_of(
                s,
                r,
            )[i]).len() <= (s.len() + two_pow(r) - 1) / (two_pow(r) as int),
    decreases r,
{
    if r == 0 {
    } else {
        let ax = axis_for(r);
        let t = stably_sorted(s, ax);
        lemma_stably_sorted_len(s, ax);
        let h = (t.len() / 2) as int;
        let rest = (r - 1) as nat;
        let m = two_pow(rest) as int;
        lemma_two_pow_positive(rest);
        let lower = sectors_of(t.take(h), rest);
        let upper = sectors_of(t.skip(h), rest);
        lemma_sector_count(t.take(h), rest);
        lemma_sectors_balanced(t.take(h), rest);
        lemma_sectors_balanced(t.skip(h), rest);
        assert forall|i: int| 0 <= i < sectors_of(s, r).len() implies s.len() / two_pow(r) <= (
        #[trigger] sectors_of(s, r)[i]).len() <= (s.len() + two_pow(r) - 1) / (two_pow(r) as int) by {
            if i < m {
                assert(sectors_of(s, r)[i] == lower[i]);
                lemma_halving_bounds(s.len() as int, m, lower[i].len() as int, h);
            } else {
                assert(sectors_of(s, r)[i] == upper[i - m]);
                lemma_halving_bounds(
                    s.len() as int,
                    m,
                    upper[i - m].len() as int,
                    t.len() - h,
                );
            }
        }
    }
}

/// When there are at least as many stars as sectors, no sector is empty.
pub proof fn lemma_sectors_nonempty(s: Seq<StarKey>, r: nat)
    requires
        two_pow(r) <= s.len(),
    ensures
        forall|i: int| 0 <= i < sectors_of(s, r).len() ==> (#[trigger] sectors_of(s, r)[i]).len() > 0,
{
    lemma_two_pow_positive(r);
    lemma_sectors_balanced(s, r);
    let n = s.len() as int;
    let d = two_pow(r) as int;
    assert(n / d >= 1) by (nonlinear_arith)
        requires
            d >= 1,
            d <= n,
    {
        assert(n / d >= d / d) by {
            lemma_div_is_ordered(d, n, d);
        }
    }
}

/// Some halving among `r` rounds sorts on `axis`.
pub open spec fn axis_sorted(axis: nat, r: nat) -> bool {
    exists|k: nat| 1 <= k <= r && #[trigger] axis_for(k) == axis
}

/// The binary32 bit pattern of a coordinate triple on an axis.
pub open spec fn bits_on(c: (u32, u32, u32), axis: nat) -> u32 {
    if axis == 0 {
        c.0
    } else if axis == 1 {
        c.1
    } else {
        c.2
    }
}

/// Whether `r` rounds of halving would compare a NaN: some star has a NaN
/// coordinate (given as binary32 bit patterns) on an axis that some round
/// sorts on. Every round sorts groups of two or more stars when there are at
/// least `2^r` stars, so each star's coordinate on that axis is compared.
pub fn sorts_meet_nan(coords: &Vec<(u32, u32, u32)>, recursions_left: u32) -> (r: bool)
    ensures
        r == exists|i: int, axis: nat|
            0 <= i < coords@.len() && axis < 3 && axis_sorted(axis, recursions_left as nat)
                && is_nan_bits(#[trigger] bits_on(coords@[i], axis)),
        r == exists|i: int|
            0 <= i < coords@.len() && ((recursions_left >= 3 && ((#[trigger] coords@[i]).0
                & 0x7f80_0000) == 0x7f80_0000 && (coords@[i].0 & 0x007f_ffff) != 0) || (
            recursions_left >= 1 && (coords@[i].1 & 0x7f80_0000) == 0x7f80_0000 && (coords@[i].1
                & 0x007f_ffff) != 0) || (recursions_left >= 2 && (coords@[i].2 & 0x7f80_0000)
                == 0x7f80_0000 && (coords@[i].2 & 0x007f_ffff) != 0)),
{
    let ghost rl: nat = recursions_left as nat;
    let sort_x = recursions_left >= 3;
    let sort_y = recursions_left >= 1;
    let sort_z = recursions_left >= 2;
    proof {
        assert(sort_x == axis_sorted(0, rl)) by {
            if sort_x {
                assert(axis_for(3) == 0);
            }
            if axis_sorted(0, rl) {
                let k = choose|k: nat| 1 <= k <= rl && #[trigger] axis_for(k) == 0;
                assert(k >= 3);
            }
        }
        assert(sort_y == axis_sorted(1, rl)) by {
            if sort_y {
                assert(axis_for(1) == 1);
            }
        }
        assert(sort_z == axis_sorted(2, rl)) by {
            if sort_z {
                assert(axis_for(2) == 2);
            }
            if axis_sorted(2, rl) {
                let k = choose|k: nat| 1 <= k <= rl && #[trigger] axis_for(k) == 2;
                assert(k >= 2);
            }
        }
    }
    let mut i: usize = 0;
    while i < coords.len()
        invariant
            i <= coords@.len(),
            sort_x == axis_sorted(0, rl),
            sort_y == axis_sorted(1, rl),
            sort_z == axis_sorted(2, rl),
            rl == recursions_left as nat,
            forall|j: int, axis: nat|
                0 <= j < i && axis < 3 && axis_sorted(axis, rl) ==> !is_nan_bits(
                    #[trigger] bits_on(coords@[j], axis),
                ),
        decreases coords@.len() - i,
    {
        let c = coords[i];
        if (sort_x && is_nan(c.0)) || (sort_y && is_nan(c.1)) || (sort_z && is_nan(c.2)) {
            proof {
                if sort_x && is_nan_bits(c.0) {
                    assert(is_nan_bits(bits_on(coords@[i as int], 0)));
                } else if sort_y && is_nan_bits(c.1) {
                    assert(is_nan_bits(bits_on(coords@[i as int], 1)));
                } else {
                    assert(is_nan_bits(bits_on(coords@[i as int], 2)));
                }
            }
            proof {
                lemma_raw_nan_axes(coords@, rl, i as int);
            }
            return true;
        }
        proof {
            assert forall|j: int, axis: nat|
                0 <= j < i + 1 && axis < 3 && axis_sorted(axis, rl) implies !is_nan_bits(
                #[trigger] bits_on(coords@[j], axis),
            ) by {
                if j == i {
                    if axis == 0 {
                    } else if axis == 1 {
                    } else {
                    }
                }
            }
        }
        i = i + 1;
    }
    proof {
        assert forall|j: int| 0 <= j < coords@.len() implies !((recursions_left >= 3 && ((
        #[trigger] coords@[j]).0 & 0x7f80_0000) == 0x7f80_0000 && (coords@[j].0 & 0x007f_ffff)
            != 0) || (recursions_left >= 1 && (coords@[j].1 & 0x7f80_0000) == 0x7f80_0000 && (
        coords@[j].1 & 0x007f_ffff) != 0) || (recursions_left >= 2 && (coords@[j].2
            & 0x7f80_0000) == 0x7f80_0000 && (coords@[j].2 & 0x007f_ffff) != 0)) by {
            lemma_raw_nan_axes(coords@, rl, j);
            assert(!is_nan_bits(bits_on(coords@[j], 0)) || !axis_sorted(0, rl));
            assert(!is_nan_bits(bits_on(coords@[j], 1)) || !axis_sorted(1, rl));
            assert(!is_nan_bits(bits_on(coords@[j], 2)) || !axis_sorted(2, rl));
        }
    }
    false
}

/// On one coordinate triple, a NaN on a sorted axis in the terms of
/// `axis_sorted` is a NaN field on x from three rounds, y from one, z from two.
proof fn lemma_raw_nan_axes(c: Seq<(u32, u32, u32)>, rl: nat, i: int)
    requires
        0 <= i < c.len(),
    ensures
        ((rl >= 3 && (c[i].0 & 0x7f80_0000) == 0x7f80_0000 && (c[i].0 & 0x007f_ffff) != 0) || (rl
            >= 1 && (c[i].1 & 0x7f80_0000) == 0x7f80_0000 && (c[i].1 & 0x007f_ffff) != 0) || (rl
            >= 2 && (c[i].2 & 0x7f80_0000) == 0x7f80_0000 && (c[i].2 & 0x007f_ffff) != 0)) == (
        (axis_sorted(0, rl) && is_nan_bits(bits_on(c[i], 0))) || (axis_sorted(1, rl)
            && is_nan_bits(bits_on(c[i], 1))) || (axis_sorted(2, rl) && is_nan_bits(
            bits_on(c[i], 2),
        ))),
{
    lemma_nan_fields(c[i].0);
    lemma_nan_fields(c[i].1);
    lemma_nan_fields(c[i].2);
    if rl >= 3 {
        assert(axis_for(3) == 0);
    }
    if axis_sorted(0, rl) {
        let k = choose|k: nat| 1 <= k <= rl && #[trigger] axis_for(k) == 0;
        assert(k >= 3);
    }
    if rl >= 1 {
        assert(axis_for(1) == 1);
    }
    if rl >= 2 {
        assert(axis_for(2) == 2);
    }
    if axis_sorted(2, rl) {
        let k = choose|k: nat| 1 <= k <= rl && #[trigger] axis_for(k) == 2;
        assert(k >= 2);
    }
    if axis_sorted(1, rl) {
        let k = choose|k: nat| 1 <= k <= rl && #[trigger] axis_for(k) == 1;
        assert(k >= 1);
    }
}

/// The stable sort on axis 0 orders the stars by their `x` field, on axis 1
/// by `y` and on axis 2 by `z`, and keeps the stars.
pub proof fn lemma_sorted_on_fields(s: Seq<StarKey>, axis: nat)
    ensures
        stably_sorted(s, axis).to_multiset() == s.to_multiset(),
        forall|i: int, j: int|
            0 <= i < j < stably_sorted(s, axis).len() ==> (if axis == 0 {
                (#[trigger] stably_sorted(s, axis)[i]).x <= (#[trigger] stably_sorted(
                    s,
                    axis,
                )[j]).x
            } else if axis == 1 {
                stably_sorted(s, axis)[i].y <= stably_sorted(s, axis)[j].y
            } else {
                stably_sorted(s, axis)[i].z <= stably_sorted(s, axis)[j].z
            }),
{
    lemma_stable_sort_exists(s, axis);
    let t = stably_sorted(s, axis);
    let p = choose|p: Seq<int>| is_stable_sort(t, s, axis, p);
    lemma_stable_sort_multiset(t, s, axis, p);
    assert forall|i: int, j: int| 0 <= i < j < t.len() implies (if axis == 0 {
        (#[trigger] t[i]).x <= (#[trigger] t[j]).x
    } else if axis == 1 {
        t[i].y <= t[j].y
    } else {
        t[i].z <= t[j].z
    }) by {
        assert(key_on(t[i], axis) <= key_on(t[j], axis));
    }
}

/// With `r > 0` rounds left, the first halving sorts on axis `r % 3`: every
/// star in the first `2^(r-1)` sectors has, on that axis (`x` for 0, `y` for
/// 1, `z` for 2), a field at most that of every star in the last `2^(r-1)`.
pub proof fn lemma_first_split_axis(s: Seq<StarKey>, r: nat)
    requires
        r > 0,
    ensures
        forall|a: StarKey, b: StarKey|
            #![trigger sectors_of(s, r).take(two_pow((r - 1) as nat) as int).flatten().contains(a), sectors_of(s, r).skip(two_pow((r - 1) as nat) as int).flatten().contains(b)]
            sectors_of(s, r).take(two_pow((r - 1) as nat) as int).flatten().contains(a)
                && sectors_of(s, r).skip(two_pow((r - 1) as nat) as int).flatten().contains(b)
                ==> (if r % 3 == 0 {
                a.x <= b.x
            } else if r % 3 == 1 {
                a.y <= b.y
            } else {
                a.z <= b.z
            }),
{
    lemma_halves_are_separated(s, r);
}

/// The stable sort keeps stars with equal fields on the axis (`x` for 0, `y`
/// for 1, `z` for 2) in the order in which they were given.
pub proof fn lemma_sort_keeps_ties(s: Seq<StarKey>, axis: nat)
    ensures
        forall|k: int, l: int|
            0 <= k < l < s.len() && (if axis == 0 {
                (#[trigger] s[k]).x == (#[trigger] s[l]).x
            } else if axis == 1 {
                s[k].y == s[l].y
            } else {
                s[k].z == s[l].z
            }) ==> exists|i: int, j: int|
                0 <= i < j < s.len() && #[trigger] stably_sorted(s, axis)[i] == s[k]
                    && #[trigger] stably_sorted(s, axis)[j] == s[l],
{
    lemma_stable_sort_exists(s, axis);
    let t = stably_sorted(s, axis);
    let p = choose|p: Seq<int>| is_stable_sort(t, s, axis, p);
    lemma_stable_sort_order(t, s, axis, p);
    assert forall|k: int, l: int|
        0 <= k < l < s.len() && (if axis == 0 {
            (#[trigger] s[k]).x == (#[trigger] s[l]).x
        } else if axis == 1 {
            s[k].y == s[l].y
        } else {
            s[k].z == s[l].z
        }) implies exists|i: int, j: int|
        0 <= i < j < s.len() && #[trigger] t[i] == s[k] && #[trigger] t[j] == s[l] by {
        assert(key_on(s[k], axis) == key_on(s[l], axis));
        assert(p.contains(k));
        assert(p.contains(l));
        let i = choose|i: int| 0 <= i < p.len() && p[i] == k;
        let j = choose|j: int| 0 <= j < p.len() && p[j] == l;
        if j < i {
            assert(placed_before(s, axis, p[j], p[i]));
        }
        assert(i != j);
        assert(t[i] == s[k] && t[j] == s[l]);
    }
}

/// With `r > 0` rounds left, the sectors of the lower half together hold
/// `n / 2` stars (the smaller half when `n` is odd) and those of the upper half
/// the other `n - n / 2`.
pub proof fn lemma_half_sizes(s: Seq<StarKey>, r: nat)
    requires
        r > 0,
    ensures
        sectors_of(s, r).take(two_pow((r - 1) as nat) as int).flatten().len() == s.len() / 2,
        sectors_of(s, r).skip(two_pow((r - 1) as nat) as int).flatten().len() == s.len() - s.len()
            / 2,
{
    let ax = axis_for(r);
    let m = two_pow((r - 1) as nat) as int;
    let t = stably_sorted(s, ax);
    lemma_stably_sorted_len(s, ax);
    let h = (t.len() / 2) as int;
    let lower = sectors_of(t.take(h), (r - 1) as nat);
    let upper = sectors_of(t.skip(h), (r - 1) as nat);
    lemma_sector_count(t.take(h), (r - 1) as nat);
    assert(sectors_of(s, r).take(m) =~= lower);
    assert(sectors_of(s, r).skip(m) =~= upper);
    lemma_sectors_keep_stars(t.take(h), (r - 1) as nat);
    lemma_sectors_keep_stars(t.skip(h), (r - 1) as nat);
    assert(lower.flatten().len() == lower.flatten().to_multiset().len());
    assert(t.take(h).len() == t.take(h).to_multiset().len());
    assert(upper.flatten().len() == upper.flatten().to_multiset().len());
    assert(t.skip(h).len() == t.skip(h).to_multiset().len());
}

/// `two_pow` is the power of two of vstd.
pub proof fn lemma_two_pow_is_pow2(r: nat)
    ensures
        two_pow(r) == vstd::arithmetic::power2::pow2(r),
    decreases r,
{
    if r == 0 {
        vstd::arithmetic::power2::lemma2_to64();
    } else {
        lemma_two_pow_is_pow2((r - 1) as nat);
        vstd::arithmetic::power2::lemma_pow2_unfold(r);
    }
}

} // verus!
