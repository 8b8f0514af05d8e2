use vstd::prelude::*;

verus! {

/// `a` comes strictly before `b` when its key is smaller, or when the keys are
/// equal and its position is smaller.
pub open spec fn ranks_before(a: (u32, usize), b: (u32, usize)) -> bool {
    a.0 < b.0 || (a.0 == b.0 && a.1 < b.1)
}

/// Every element comes strictly before every later element.
pub open spec fn strictly_ascending(s: Seq<(u32, usize)>) -> bool {
    forall|i: int, j: int| 0 <= i < j < s.len() ==> ranks_before(#[trigger] s[i], #[trigger] s[j])
}

/// No element occurs twice.
pub open spec fn no_repeats(s: Seq<(u32, usize)>) -> bool {
    forall|i: int, j: int| 0 <= i < j < s.len() ==> #[trigger] s[i] != #[trigger] s[j]
}

fn ranks_before_exec(a: (u32, usize), b: (u32, usize)) -> (r: bool)
    ensures
        r == ranks_before(a, b),
{
    a.0 < b.0 || (a.0 == b.0 && a.1 < b.1)
}

/// Merges two strictly ascending sequences that share no element.
fn merge(a: &Vec<(u32, usize)>, b: &Vec<(u32, usize)>) -> (r: Vec<(u32, usize)>)
    requires
        strictly_ascending(a@),
        strictly_ascending(b@),
        forall|x: (u32, usize)| a@.contains(x) ==> !b@.contains(x),
    ensures
        strictly_ascending(r@),
        r@.len() == a@.len() + b@.len(),
        forall|x: (u32, usize)| r@.contains(x) <==> (a@.contains(x) || b@.contains(x)),
{
    let mut r: Vec<(u32, usize)> = Vec::new();
    let mut i: usize = 0;
    let mut j: usize = 0;
    while i < a.len() || j < b.len()
        invariant
            strictly_ascending(a@),
            strictly_ascending(b@),
            forall|x: (u32, usize)| a@.contains(x) ==> !b@.contains(x),
            i <= a@.len(),
            j <= b@.len(),
            r@.len() == i + j,
            strictly_ascending(r@),
            forall|x: (u32, usize)|
                r@.contains(x) <==> (a@.subrange(0, i as int).contains(x) || b@.subrange(
                    0,
                    j as int,
                ).contains(x)),
            r@.len() > 0 && i < a@.len() ==> ranks_before(r@.last(), a@[i as int]),
            r@.len() > 0 && j < b@.len() ==> ranks_before(r@.last(), b@[j as int]),
        decreases a@.len() + b@.len() - i - j,
    {
        let ghost old_r = r@;
        let take_a = if j >= b.len() {
            true
        } else if i >= a.len() {
            false
        } else {
            ranks_before_exec(a[i], b[j])
        };
        if take_a {
            let x = a[i];
            proof {
                assert(a@.subrange(0, i + 1) =~= a@.subrange(0, i as int).push(x));
                if j < b@.len() {
                    assert(ranks_before(x, b@[j as int]));
                }
                if i + 1 < a@.len() {
                    assert(ranks_before(a@[i as int], a@[i + 1]));
                }
            }
            r.push(x);
            i = i + 1;
            proof {
                assert forall|p: int, q: int| 0 <= p < q < r@.len() implies ranks_before(
                    #[trigger] r@[p],
                    #[trigger] r@[q],
                ) by {
                    if q == r@.len() - 1 && p < q {
                        assert(ranks_before(old_r[p], old_r.last()) || p == old_r.len() - 1);
                    }
                }
                assert forall|y: (u32, usize)|
                    r@.contains(y) <==> (a@.subrange(0, i as int).contains(y) || b@.subrange(
                        0,
                        j as int,
                    ).contains(y)) by {
                    if r@.contains(y) {
                        let k = choose|k: int| 0 <= k < r@.len() && r@[k] == y;
                        if k < old_r.len() {
                            assert(old_r[k] == y);
                            assert(old_r.contains(y));
                        } else {
                            assert(a@.subrange(0, i as int)[i - 1] == y);
                        }
                    }
                    if a@.subrange(0, i as int).contains(y) {
                        let k = choose|k: int| 0 <= k < i && a@.subrange(0, i as int)[k] == y;
                        if k < i - 1 {
                            assert(a@.subrange(0, i - 1)[k] == y);
                            assert(old_r.contains(y));
                            let m = choose|m: int| 0 <= m < old_r.len() && old_r[m] == y;
                            assert(r@[m] == y);
                        } else {
                            assert(r@[r@.len() - 1] == y);
                        }
                    }
                    if b@.subrange(0, j as int).contains(y) {
                        assert(old_r.contains(y));
                        let m = choose|m: int| 0 <= m < old_r.len() && old_r[m] == y;
                        assert(r@[m] == y);
                    }
                }
            }
        } else {
            let x = b[j];
            proof {
                assert(b@.subrange(0, j + 1) =~= b@.subrange(0, j as int).push(x));
                if i < a@.len() {
                    assert(a@.contains(a@[i as int]));
                    assert(b@.contains(x));
                    assert(ranks_before(x, a@[i as int]));
                }
                if j + 1 < b@.len() {
                    assert(ranks_before(b@[j as int], b@[j + 1]));
                }
            }
            r.push(x);
            j = j + 1;
            proof {
                assert forall|p: int, q: int| 0 <= p < q < r@.len() implies ranks_before(
                    #[trigger] r@[p],
                    #[trigger] r@[q],
                ) by {
                    if q == r@.len() - 1 && p < q {
                        assert(ranks_before(old_r[p], old_r.last()) || p == old_r.len() - 1);
                    }
                }
                assert forall|y: (u32, usize)|
                    r@.contains(y) <==> (a@.subrange(0, i as int).contains(y) || b@.subrange(
                        0,
                        j as int,
                    ).contains(y)) by {
                    if r@.contains(y) {
                        let k = choose|k: int| 0 <= k < r@.len() && r@[k] == y;
                        if k < old_r.len() {
                            assert(old_r[k] == y);
                            assert(old_r.contains(y));
                        } else {
                            assert(b@.subrange(0, j as int)[j - 1] == y);
                        }
                    }
                    if b@.subrange(0, j as int).contains(y) {
                        let k = choose|k: int| 0 <= k < j && b@.subrange(0, j as int)[k] == y;
                        if k < j - 1 {
                            assert(b@.subrange(0, j - 1)[k] == y);
                            assert(old_r.contains(y));
                            let m = choose|m: int| 0 <= m < old_r.len() && old_r[m] == y;
                            assert(r@[m] == y);
                        } else {
                            assert(r@[r@.len() - 1] == y);
                        }
                    }
                    if a@.subrange(0, i as int).contains(y) {
                        assert(old_r.contains(y));
                        let m = choose|m: int| 0 <= m < old_r.len() && old_r[m] == y;
                        assert(r@[m] == y);
                    }
                }
            }
        }
    }
    proof {
        assert(a@.subrange(0, a@.len() as int) =~= a@);
        assert(b@.subrange(0, b@.len() as int) =~= b@);
    }
    r
}

/// Sorts a sequence without repeats into strictly ascending order.
pub(crate) fn merge_sort(v: Vec<(u32, usize)>) -> (r: Vec<(u32, usize)>)
    requires
        no_repeats(v@),
    ensures
        strictly_ascending(r@),
        r@.len() == v@.len(),
        forall|x: (u32, usize)| r@.contains(x) <==> v@.contains(x),
    decreases v@.len(),
{
    let n = v.len();
    if n <= 1 {
        return v;
    }
    let ghost whole = v@;
    let mut left = v;
    let right = left.split_off(n / 2);
    proof {
        assert(no_repeats(left@)) by {
            assert forall|i: int, j: int| 0 <= i < j < left@.len() implies #[trigger] left@[i]
                != #[trigger] left@[j] by {
                assert(left@[i] == whole[i] && left@[j] == whole[j]);
            }
        }
        assert(no_repeats(right@)) by {
            assert forall|i: int, j: int| 0 <= i < j < right@.len() implies #[trigger] right@[i]
                != #[trigger] right@[j] by {
                assert(right@[i] == whole[i + n / 2] && right@[j] == whole[j + n / 2]);
            }
        }
    }
    let left_sorted = merge_sort(left);
    let right_sorted = merge_sort(right);
    proof {
        assert forall|x: (u32, usize)| left_sorted@.contains(x) implies !right_sorted@.contains(
            x,
        ) by {
            if right_sorted@.contains(x) {
                assert(left@.contains(x) && right@.contains(x));
                let i = choose|i: int| 0 <= i < left@.len() && left@[i] == x;
                let j = choose|j: int| 0 <= j < right@.len() && right@[j] == x;
                assert(whole[i] == x && whole[j + n / 2] == x);
            }
        }
    }
    let r = merge(&left_sorted, &right_sorted);
    proof {
        assert forall|x: (u32, usize)| r@.contains(x) <==> whole.contains(x) by {
            if whole.contains(x) {
                let k = choose|k: int| 0 <= k < whole.len() && whole[k] == x;
                if k < n / 2 {
                    assert(left@[k] == x);
                    assert(left@.contains(x));
                } else {
                    assert(right@[k - n / 2] == x);
                    assert(right@.contains(x));
                }
            }
            if left@.contains(x) {
                let k = choose|k: int| 0 <= k < left@.len() && left@[k] == x;
                assert(whole[k] == x);
            }
            if right@.contains(x) {
                let k = choose|k: int| 0 <= k < right@.len() && right@[k] == x;
                assert(whole[k + n / 2] == x);
            }
        }
    }
    r
}

} // verus!
