//! Flags over a range of indices: which are set, how many, and the free
//! index at a given place.
use vstd::prelude::*;

verus! {

/// The `k`-th index, counted from 0, at which `used` is false, and -1 if
/// there are not so many.
pub open spec fn nth_free(used: Seq<bool>, k: int) -> int
    decreases used.len(),
{
    if used.len() == 0 {
        -1
    } else if count_free(used.drop_last()) > k {
        nth_free(used.drop_last(), k)
    } else if count_free(used.drop_last()) == k && !used.last() {
        used.len() - 1
    } else {
        -1
    }
}

/// The number of indices at which `used` is false.
pub open spec fn count_free(used: Seq<bool>) -> int
    decreases used.len(),
{
    if used.len() == 0 {
        0
    } else {
        count_free(used.drop_last()) + if used.last() {
            0int
        } else {
            1int
        }
    }
}

pub proof fn lemma_count_free_bounds(used: Seq<bool>)
    ensures
        0 <= count_free(used) <= used.len(),
    decreases used.len(),
{
    if used.len() > 0 {
        lemma_count_free_bounds(used.drop_last());
    }
}

/// Where no index is free, all are used.
pub proof fn lemma_count_free_zero(used: Seq<bool>)
    requires
        count_free(used) == 0,
    ensures
        forall|i: int| 0 <= i < used.len() ==> used[i],
    decreases used.len(),
{
    if used.len() > 0 {
        lemma_count_free_bounds(used.drop_last());
        lemma_count_free_zero(used.drop_last());
        assert forall|i: int| 0 <= i < used.len() implies used[i] by {
            if i < used.len() - 1 {
                assert(used.drop_last()[i] == used[i]);
            }
        }
    }
}

/// Marking a free index as used leaves one free index fewer.
pub proof fn lemma_count_free_update(used: Seq<bool>, i: int)
    requires
        0 <= i < used.len(),
        !used[i],
    ensures
        count_free(used.update(i, true)) == count_free(used) - 1,
    decreases used.len(),
{
    let after = used.update(i, true);
    if i == used.len() - 1 {
        assert(after.drop_last() == used.drop_last());
    } else {
        lemma_count_free_update(used.drop_last(), i);
        assert(after.drop_last() == used.drop_last().update(i, true));
    }
}

/// `nth_free` names a free index below the length, for every `k` below the
/// number of free indices.
pub proof fn lemma_nth_free(used: Seq<bool>, k: int)
    requires
        0 <= k < count_free(used),
    ensures
        0 <= nth_free(used, k) < used.len(),
        !used[nth_free(used, k)],
        count_free(used.take(nth_free(used, k))) == k,
    decreases used.len(),
{
    if used.len() > 0 {
        let front = used.drop_last();
        if count_free(front) > k {
            lemma_nth_free(front, k);
            assert(used.take(nth_free(front, k)) == front.take(nth_free(front, k)));
        } else {
            assert(used.take(used.len() - 1) == front);
        }
    }
}

/// The number of free indices among the first `n`.
pub fn free_before(used: &Vec<bool>, n: usize) -> (c: usize)
    requires
        n <= used.len(),
    ensures
        c == count_free(used@.take(n as int)),
{
    let mut c: usize = 0;
    let mut i: usize = 0;
    while i < n
        invariant
            i <= n <= used.len(),
            c == count_free(used@.take(i as int)),
            c <= i,
        decreases n - i,
    {
        proof {
            assert(used@.take(i + 1).drop_last() == used@.take(i as int));
        }
        if !used[i] {
            c += 1;
        }
        i += 1;
    }
    c
}

/// The `k`-th free index of `used`.
pub fn pick_free(used: &Vec<bool>, k: usize) -> (i: usize)
    requires
        k < count_free(used@),
    ensures
        i == nth_free(used@, k as int),
        i < used.len(),
        !used[i as int],
{
    let mut seen: usize = 0;
    let mut i: usize = 0;
    proof {
        lemma_nth_free(used@, k as int);
        lemma_count_free_bounds(used@);
    }
    while i < used.len()
        invariant
            i <= used.len(),
            seen == count_free(used@.take(i as int)),
            seen <= k,
            k < count_free(used@),
            i <= nth_free(used@, k as int) < used.len(),
            !used[nth_free(used@, k as int)],
            count_free(used@.take(nth_free(used@, k as int))) == k,
        decreases used.len() - i,
    {
        proof {
            assert(used@.take(i + 1).drop_last() == used@.take(i as int));
            lemma_count_free_monotone(used@, i as int + 1, nth_free(used@, k as int));
        }
        if !used[i] {
            if seen == k {
                proof {
                    if i < nth_free(used@, k as int) {
                        lemma_count_free_monotone(used@, i as int + 1, nth_free(used@, k as int));
                    }
                }
                return i;
            }
            seen += 1;
        }
        proof {
            if i as int == nth_free(used@, k as int) {
                assert(false);
            }
        }
        i += 1;
    }
    proof {
        assert(false);
    }
    0
}

/// Fewer free indices lie before an earlier position than before a later one.
pub proof fn lemma_count_free_monotone(used: Seq<bool>, a: int, b: int)
    requires
        0 <= a,
        b <= used.len(),
    ensures
        a <= b ==> count_free(used.take(a)) <= count_free(used.take(b)),
    decreases b - a,
{
    if a < b {
        lemma_count_free_monotone(used, a, b - 1);
        assert(used.take(b).drop_last() == used.take(b - 1));
    }
}

/// Where no index is used, all are free.
pub proof fn lemma_all_free(used: Seq<bool>)
    requires
        forall|i: int| 0 <= i < used.len() ==> !used[i],
    ensures
        count_free(used) == used.len(),
    decreases used.len(),
{
    if used.len() > 0 {
        lemma_all_free(used.drop_last());
    }
}

/// One more index adds one to the count if it is free and nothing if not.
pub proof fn lemma_count_free_step(used: Seq<bool>, n: int)
    requires
        0 <= n < used.len(),
    ensures
        count_free(used.take(n + 1)) == count_free(used.take(n)) + if used[n] {
            0int
        } else {
            1int
        },
{
    assert(used.take(n + 1).drop_last() == used.take(n));
}

/// The number of indices at which `flags` holds.
pub open spec fn count_set(flags: Seq<bool>) -> int {
    flags.len() - count_free(flags)
}

/// No more flags are set among the first `a` than among the first `b`.
pub proof fn lemma_count_set_monotone(flags: Seq<bool>, a: int, b: int)
    requires
        0 <= a <= b <= flags.len(),
    ensures
        count_set(flags.take(a)) <= count_set(flags.take(b)),
    decreases b - a,
{
    if a < b {
        lemma_count_set_monotone(flags, a, b - 1);
        lemma_count_free_step(flags, b - 1);
    }
}

/// `n` flags, none of them set.
pub fn cleared(n: usize) -> (flags: Vec<bool>)
    ensures
        flags.len() == n,
        forall|i: int| 0 <= i < n ==> !flags[i],
        count_free(flags@) == n,
{
    let flags = vec![false; n];
    proof {
        lemma_all_free(flags@);
    }
    flags
}

/// Sets the flag at `i`, which was clear.
pub fn mark(used: &mut Vec<bool>, i: usize)
    requires
        i < old(used).len(),
        !old(used)[i as int],
    ensures
        final(used)@ == old(used)@.update(i as int, true),
        count_free(final(used)@) == count_free(old(used)@) - 1,
{
    proof {
        lemma_count_free_update(used@, i as int);
    }
    used[i] = true;
}

/// Flags over `n` wires that hold at the wires of `list`.
pub fn flags_of(list: &Vec<usize>, n: usize) -> (flags: Vec<bool>)
    ensures
        flags.len() == n,
        forall|w: int| 0 <= w < n ==> (#[trigger] flags[w] <==> list@.contains(w as usize)),
{
    let mut flags: Vec<bool> = vec![false; n];
    let mut k: usize = 0;
    while k < list.len()
        invariant
            k <= list.len(),
            flags.len() == n,
            forall|w: int|
                0 <= w < n ==> (#[trigger] flags[w] <==> exists|j: int|
                    0 <= j < k && #[trigger] list[j] == w),
        decreases list.len() - k,
    {
        let w = list[k];
        let ghost before = flags@;
        if w < n {
            flags[w] = true;
        }
        proof {
            assert forall|v: int| 0 <= v < n implies (#[trigger] flags[v] <==> exists|j: int|
                0 <= j < k + 1 && #[trigger] list[j] == v) by {
                if before[v] {
                    let j = choose|j: int| 0 <= j < k && #[trigger] list[j] == v;
                    assert(0 <= j < k + 1 && list[j] == v);
                }
                if v == w {
                    assert(list[k as int] == v);
                }
            }
        }
        k += 1;
    }
    proof {
        assert forall|w: int| 0 <= w < n implies (#[trigger] flags[w] <==> list@.contains(
            w as usize,
        )) by {
            if flags[w] {
                let j = choose|j: int| 0 <= j < k && #[trigger] list[j] == w;
                assert(list@[j] == w as usize);
            }
            if list@.contains(w as usize) {
                let j = choose|j: int| 0 <= j < list.len() && list@[j] == w as usize;
                assert(list[j] == w);
            }
        }
    }
    flags
}

/// `list` holds, in increasing order, the numbers below `bound` of which
/// `wanted` holds.
pub open spec fn lists_exactly(list: Seq<usize>, bound: int, wanted: spec_fn(usize) -> bool) -> bool {
    &&& forall|a: int, b: int| 0 <= a < b < list.len() ==> list[a] < list[b]
    &&& forall|w: usize| list.contains(w) <==> (w < bound && wanted(w))
}

/// The positions at which `flags` holds, in increasing order.
pub fn flagged(flags: &Vec<bool>) -> (list: Vec<usize>)
    ensures
        forall|a: int, b: int| 0 <= a < b < list.len() ==> list[a] < list[b],
        forall|w: usize| list@.contains(w) <==> (w < flags.len() && flags[w as int]),
{
    let mut list: Vec<usize> = Vec::new();
    let mut w: usize = 0;
    while w < flags.len()
        invariant
            w <= flags.len(),
            forall|a: int, b: int| 0 <= a < b < list.len() ==> list[a] < list[b],
            forall|a: int| 0 <= a < list.len() ==> list[a] < w,
            forall|v: usize| list@.contains(v) <==> (v < w && flags[v as int]),
        decreases flags.len() - w,
    {
        if flags[w] {
            let ghost before = list@;
            list.push(w);
            proof {
                assert forall|v: usize| list@.contains(v) <==> (v < w + 1 && flags[v as int]) by {
                    if before.contains(v) {
                        let k = choose|k: int| 0 <= k < before.len() && before[k] == v;
                        assert(list@[k] == v);
                    }
                    if v == w {
                        assert(list@[list.len() - 1] == v);
                    }
                    if list@.contains(v) {
                        let k = choose|k: int| 0 <= k < list.len() && list@[k] == v;
                        if k < before.len() {
                            assert(before[k] == v);
                            assert(before.contains(v));
                        }
                    }
                }
            }
        }
        w += 1;
    }
    list
}

} // verus!
