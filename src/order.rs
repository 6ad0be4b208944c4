use vstd::prelude::*;

verus! {

/// Whether an entry keyed `a`, met first, stays ahead of one keyed `b`.
pub open spec fn stays_ahead(a: i128, b: i128, descending: bool) -> bool {
    if descending {
        a >= b
    } else {
        a <= b
    }
}

/// `order` with position `i` placed behind every entry that stays ahead of it.
pub open spec fn place(order: Seq<usize>, keys: Seq<i128>, i: usize, descending: bool) -> Seq<usize>
    decreases order.len(),
{
    if order.len() == 0 {
        seq![i]
    } else if stays_ahead(keys[order.last() as int], keys[i as int], descending) {
        order.push(i)
    } else {
        place(order.drop_last(), keys, i, descending).push(order.last())
    }
}

/// Positions `0..n` of `keys`, ordered by key; equal keys keep their order.
pub open spec fn stable_order(keys: Seq<i128>, n: nat, descending: bool) -> Seq<usize>
    decreases n,
{
    if n == 0 {
        Seq::empty()
    } else {
        place(stable_order(keys, (n - 1) as nat, descending), keys, (n - 1) as usize, descending)
    }
}

/// Positions among the first `n` of `s` whose entries `keep` accepts, in order.
pub open spec fn select<T>(s: Seq<T>, keep: spec_fn(T) -> bool, n: nat) -> Seq<usize>
    decreases n,
{
    if n == 0 {
        Seq::empty()
    } else if keep(s[n - 1]) {
        select(s, keep, (n - 1) as nat).push((n - 1) as usize)
    } else {
        select(s, keep, (n - 1) as nat)
    }
}

pub proof fn lemma_select_bounds<T>(s: Seq<T>, keep: spec_fn(T) -> bool, n: nat)
    ensures
        select(s, keep, n).len() <= n,
        forall|k: int|
            0 <= k < select(s, keep, n).len() ==> (#[trigger] select(s, keep, n)[k] as int) < n,
    decreases n,
{
    if n > 0 {
        lemma_select_bounds(s, keep, (n - 1) as nat);
    }
}

/// Every selected position holds an entry that `keep` accepts.
pub proof fn lemma_select_member<T>(s: Seq<T>, keep: spec_fn(T) -> bool, n: nat, k: int)
    requires
        n <= s.len(),
        n <= usize::MAX,
        0 <= k < select(s, keep, n).len(),
    ensures
        keep(s[select(s, keep, n)[k] as int]),
    decreases n,
{
    lemma_select_bounds(s, keep, n);
    if n > 0 {
        let prev = select(s, keep, (n - 1) as nat);
        lemma_select_bounds(s, keep, (n - 1) as nat);
        if keep(s[n - 1]) {
            if k == prev.len() {
                assert(select(s, keep, n)[k] == (n - 1) as usize);
            } else {
                lemma_select_member(s, keep, (n - 1) as nat, k);
                assert(select(s, keep, n)[k] == prev[k]);
            }
        } else {
            lemma_select_member(s, keep, (n - 1) as nat, k);
        }
    }
}

/// Every position below `n` whose entry `keep` accepts is selected.
pub proof fn lemma_select_complete<T>(s: Seq<T>, keep: spec_fn(T) -> bool, n: nat, i: int)
    requires
        n <= s.len(),
        n <= usize::MAX,
        0 <= i < n,
        keep(s[i]),
    ensures
        select(s, keep, n).contains(i as usize),
    decreases n,
{
    let prev = select(s, keep, (n - 1) as nat);
    if i == n - 1 {
        assert(select(s, keep, n)[prev.len() as int] == i as usize);
    } else {
        lemma_select_complete(s, keep, (n - 1) as nat, i);
        let m = choose|m: int| 0 <= m < prev.len() && prev[m] == i as usize;
        if keep(s[n - 1]) {
            assert(select(s, keep, n)[m] == i as usize);
        }
    }
}

/// Every key of `order` stays ahead of every key behind it.
pub open spec fn ordered_by(order: Seq<usize>, keys: Seq<i128>, descending: bool) -> bool {
    forall|a: int, b: int|
        0 <= a < b < order.len() ==> stays_ahead(
            keys[#[trigger] order[a] as int],
            keys[#[trigger] order[b] as int],
            descending,
        )
}

proof fn lemma_place_at(order: Seq<usize>, keys: Seq<i128>, i: usize, descending: bool, j: int)
    requires
        0 <= j <= order.len(),
        j == 0 || stays_ahead(keys[order[j - 1] as int], keys[i as int], descending),
        forall|k: int|
            j <= k < order.len() ==> !stays_ahead(
                keys[#[trigger] order[k] as int],
                keys[i as int],
                descending,
            ),
    ensures
        place(order, keys, i, descending) == order.insert(j, i),
    decreases order.len(),
{
    if order.len() == 0 {
        assert(order.insert(j, i) =~= seq![i]);
    } else if j == order.len() {
        assert(order.insert(j, i) =~= order.push(i));
    } else {
        let d = order.drop_last();
        assert(!stays_ahead(keys[order[order.len() - 1] as int], keys[i as int], descending));
        lemma_place_at(d, keys, i, descending, j);
        assert(order.insert(j, i) =~= d.insert(j, i).push(order.last()));
    }
}

proof fn lemma_place_members(order: Seq<usize>, keys: Seq<i128>, i: usize, descending: bool)
    ensures
        place(order, keys, i, descending).len() == order.len() + 1,
        forall|k: int|
            0 <= k < order.len() + 1 ==> (#[trigger] place(order, keys, i, descending)[k] == i
                || order.contains(place(order, keys, i, descending)[k])),
    decreases order.len(),
{
    if order.len() > 0 && !stays_ahead(keys[order.last() as int], keys[i as int], descending) {
        let d = order.drop_last();
        lemma_place_members(d, keys, i, descending);
        let p = place(order, keys, i, descending);
        assert forall|k: int| 0 <= k < order.len() + 1 implies #[trigger] p[k] == i || order.contains(p[k]) by {
            if k < order.len() {
                if p[k] != i {
                    let m = choose|m: int| 0 <= m < d.len() && d[m] == p[k];
                    assert(order[m] == p[k]);
                }
            } else {
                assert(order[order.len() - 1] == p[k]);
            }
        }
    } else if order.len() > 0 {
        let p = place(order, keys, i, descending);
        assert forall|k: int| 0 <= k < order.len() + 1 implies #[trigger] p[k] == i || order.contains(p[k]) by {
            if k < order.len() {
                assert(order[k] == p[k]);
            }
        }
    }
}

pub proof fn lemma_stable_order_bounds(keys: Seq<i128>, n: nat, descending: bool)
    ensures
        stable_order(keys, n, descending).len() == n,
        forall|k: int|
            0 <= k < n ==> (#[trigger] stable_order(keys, n, descending)[k] as int) < n,
    decreases n,
{
    if n > 0 {
        let prev = stable_order(keys, (n - 1) as nat, descending);
        lemma_stable_order_bounds(keys, (n - 1) as nat, descending);
        lemma_place_members(prev, keys, (n - 1) as usize, descending);
        let p = stable_order(keys, n, descending);
        assert forall|k: int| 0 <= k < n implies (#[trigger] p[k] as int) < n by {
            if p[k] != (n - 1) as usize {
                let m = choose|m: int| 0 <= m < prev.len() && prev[m] == p[k];
                assert(prev[m] < n - 1);
            }
        }
    }
}

proof fn lemma_place_ordered(order: Seq<usize>, keys: Seq<i128>, i: usize, descending: bool)
    requires
        ordered_by(order, keys, descending),
    ensures
        ordered_by(place(order, keys, i, descending), keys, descending),
    decreases order.len(),
{
    let p = place(order, keys, i, descending);
    if order.len() == 0 {
    } else if stays_ahead(keys[order.last() as int], keys[i as int], descending) {
        assert forall|a: int, b: int| 0 <= a < b < p.len() implies stays_ahead(
            keys[#[trigger] p[a] as int],
            keys[#[trigger] p[b] as int],
            descending,
        ) by {
            assert(p[a] == order[a]);
            if b < order.len() {
                assert(p[b] == order[b]);
            } else if a < order.len() - 1 {
                assert(stays_ahead(keys[order[a] as int], keys[order[order.len() - 1] as int], descending));
            }
        }
    } else {
        let d = order.drop_last();
        let last = order.last();
        assert(ordered_by(d, keys, descending)) by {
            assert forall|a: int, b: int| 0 <= a < b < d.len() implies stays_ahead(
                keys[#[trigger] d[a] as int],
                keys[#[trigger] d[b] as int],
                descending,
            ) by {
                assert(d[a] == order[a] && d[b] == order[b]);
            }
        }
        lemma_place_ordered(d, keys, i, descending);
        lemma_place_members(d, keys, i, descending);
        let q = place(d, keys, i, descending);
        assert forall|a: int, b: int| 0 <= a < b < p.len() implies stays_ahead(
            keys[#[trigger] p[a] as int],
            keys[#[trigger] p[b] as int],
            descending,
        ) by {
            assert(p[a] == q[a]);
            if b < q.len() {
                assert(p[b] == q[b]);
            } else {
                assert(p[b] == last);
                if q[a] != i {
                    let m = choose|m: int| 0 <= m < d.len() && d[m] == q[a];
                    assert(order[m] == d[m]);
                    assert(stays_ahead(keys[order[m] as int], keys[order[order.len() - 1] as int], descending));
                }
            }
        }
    }
}

/// A stable order is ordered: each key stays ahead of every key behind it.
pub proof fn lemma_stable_order_sorted(keys: Seq<i128>, n: nat, descending: bool)
    ensures
        ordered_by(stable_order(keys, n, descending), keys, descending),
    decreases n,
{
    if n > 0 {
        lemma_stable_order_sorted(keys, (n - 1) as nat, descending);
        lemma_place_ordered(stable_order(keys, (n - 1) as nat, descending), keys, (n - 1) as usize, descending);
    }
}

/// Entries with equal keys keep the order of their positions.
pub open spec fn ties_in_place(order: Seq<usize>, keys: Seq<i128>) -> bool {
    forall|a: int, b: int|
        0 <= a < b < order.len() && keys[#[trigger] order[a] as int] == keys[#[trigger] order[b] as int]
            ==> order[a] < order[b]
}

proof fn lemma_place_ties(order: Seq<usize>, keys: Seq<i128>, i: usize, descending: bool)
    requires
        ties_in_place(order, keys),
        forall|k: int| 0 <= k < order.len() ==> #[trigger] order[k] < i,
    ensures
        ties_in_place(place(order, keys, i, descending), keys),
    decreases order.len(),
{
    let p = place(order, keys, i, descending);
    if order.len() == 0 {
    } else if stays_ahead(keys[order.last() as int], keys[i as int], descending) {
        assert forall|a: int, b: int|
            0 <= a < b < p.len() && keys[#[trigger] p[a] as int] == keys[#[trigger] p[b] as int]
            implies p[a] < p[b] by {
            assert(p[a] == order[a]);
            if b < order.len() {
                assert(p[b] == order[b]);
            }
        }
    } else {
        let d = order.drop_last();
        let last = order.last();
        assert(ties_in_place(d, keys)) by {
            assert forall|a: int, b: int|
                0 <= a < b < d.len() && keys[#[trigger] d[a] as int] == keys[#[trigger] d[b] as int]
                implies d[a] < d[b] by {
                assert(d[a] == order[a] && d[b] == order[b]);
            }
        }
        assert forall|k: int| 0 <= k < d.len() implies #[trigger] d[k] < i by {
            assert(d[k] == order[k]);
        }
        lemma_place_ties(d, keys, i, descending);
        lemma_place_members(d, keys, i, descending);
        let q = place(d, keys, i, descending);
        assert forall|a: int, b: int|
            0 <= a < b < p.len() && keys[#[trigger] p[a] as int] == keys[#[trigger] p[b] as int]
            implies p[a] < p[b] by {
            assert(p[a] == q[a]);
            if b < q.len() {
                assert(p[b] == q[b]);
            } else {
                assert(p[b] == last);
                if q[a] != i {
                    let m = choose|m: int| 0 <= m < d.len() && d[m] == q[a];
                    assert(order[m] == d[m]);
                    assert(order[order.len() - 1] == last);
                }
            }
        }
    }
}

/// In a stable order, entries with equal keys keep the order of their positions.
pub proof fn lemma_stable_order_ties(keys: Seq<i128>, n: nat, descending: bool)
    requires
        n <= usize::MAX,
    ensures
        ties_in_place(stable_order(keys, n, descending), keys),
    decreases n,
{
    if n > 0 {
        let prev = stable_order(keys, (n - 1) as nat, descending);
        lemma_stable_order_ties(keys, (n - 1) as nat, descending);
        lemma_stable_order_bounds(keys, (n - 1) as nat, descending);
        assert forall|k: int| 0 <= k < prev.len() implies #[trigger] prev[k] < (n - 1) as usize by {
            assert((prev[k] as int) < n - 1);
        }
        lemma_place_ties(prev, keys, (n - 1) as usize, descending);
    }
}

proof fn lemma_place_is_insert(order: Seq<usize>, keys: Seq<i128>, i: usize, descending: bool)
    ensures
        exists|j: int| 0 <= j <= order.len() && place(order, keys, i, descending) == order.insert(j, i),
    decreases order.len(),
{
    if order.len() == 0 {
        assert(order.insert(0, i) =~= seq![i]);
        assert(place(order, keys, i, descending) == order.insert(0, i));
    } else if stays_ahead(keys[order.last() as int], keys[i as int], descending) {
        assert(order.insert(order.len() as int, i) =~= order.push(i));
        assert(place(order, keys, i, descending) == order.insert(order.len() as int, i));
    } else {
        let d = order.drop_last();
        lemma_place_is_insert(d, keys, i, descending);
        let j = choose|j: int| 0 <= j <= d.len() && place(d, keys, i, descending) == d.insert(j, i);
        assert(d.insert(j, i).push(order.last()) =~= order.insert(j, i));
        assert(place(order, keys, i, descending) == order.insert(j, i));
    }
}

/// A stable order of `n` positions lists each of `0..n` exactly once.
pub proof fn lemma_stable_order_permutation(keys: Seq<i128>, n: nat, descending: bool)
    requires
        n <= usize::MAX,
    ensures
        forall|a: int, b: int|
            0 <= a < b < stable_order(keys, n, descending).len() ==> #[trigger] stable_order(
                keys,
                n,
                descending,
            )[a] != #[trigger] stable_order(keys, n, descending)[b],
        forall|k: usize| k < n ==> #[trigger] stable_order(keys, n, descending).contains(k),
    decreases n,
{
    lemma_stable_order_bounds(keys, n, descending);
    if n > 0 {
        let prev = stable_order(keys, (n - 1) as nat, descending);
        let i = (n - 1) as usize;
        lemma_stable_order_permutation(keys, (n - 1) as nat, descending);
        lemma_stable_order_bounds(keys, (n - 1) as nat, descending);
        lemma_place_is_insert(prev, keys, i, descending);
        let j = choose|j: int| 0 <= j <= prev.len() && place(prev, keys, i, descending) == prev.insert(j, i);
        let cur = stable_order(keys, n, descending);
        assert(cur == prev.insert(j, i));
        assert forall|a: int, b: int| 0 <= a < b < cur.len() implies #[trigger] cur[a] != #[trigger] cur[b] by {
            let pa = if a < j { a } else { a - 1 };
            let pb = if b < j { b } else { b - 1 };
            if a != j && b != j {
                assert(cur[a] == prev[pa] && cur[b] == prev[pb]);
            } else if a == j {
                assert(cur[b] == prev[pb]);
                assert((prev[pb] as int) < n - 1);
            } else {
                assert(cur[a] == prev[pa]);
                assert((prev[pa] as int) < n - 1);
            }
        }
        assert forall|k: usize| k < n implies #[trigger] cur.contains(k) by {
            if k == i {
                assert(cur[j] == i);
            } else {
                assert(prev.contains(k));
                let m = choose|m: int| 0 <= m < prev.len() && prev[m] == k;
                if m < j {
                    assert(cur[m] == k);
                } else {
                    assert(cur[m + 1] == k);
                }
            }
        }
    }
}

fn check_stays_ahead(a: i128, b: i128, descending: bool) -> (r: bool)
    ensures
        r == stays_ahead(a, b, descending),
{
    if descending {
        a >= b
    } else {
        a <= b
    }
}

/// Positions of `keys` stably ordered by key, descending or ascending.
pub fn stable_order_of(keys: &Vec<i128>, descending: bool) -> (r: Vec<usize>)
    ensures
        r@ == stable_order(keys@, keys@.len(), descending),
        r@.len() == keys@.len(),
        forall|k: int| 0 <= k < r@.len() ==> (#[trigger] r@[k] as int) < keys@.len(),
{
    let n = keys.len();
    let mut order: Vec<usize> = Vec::new();
    let mut i: usize = 0;
    while i < n
        invariant
            n == keys@.len(),
            i <= n,
            order@ == stable_order(keys@, i as nat, descending),
            order@.len() == i,
            forall|k: int| 0 <= k < order@.len() ==> (#[trigger] order@[k] as int) < i,
        decreases n - i,
    {
        let ki = keys[i];
        let mut j: usize = order.len();
        while j > 0 && !check_stays_ahead(keys[order[j - 1]], ki, descending)
            invariant
                n == keys@.len(),
                i < n,
                ki == keys@[i as int],
                j <= order@.len(),
                forall|k: int| 0 <= k < order@.len() ==> (#[trigger] order@[k] as int) < i,
                forall|k: int|
                    j <= k < order@.len() ==> !stays_ahead(
                        keys@[#[trigger] order@[k] as int],
                        ki,
                        descending,
                    ),
            decreases j,
        {
            j -= 1;
        }
        proof {
            lemma_place_at(order@, keys@, i, descending, j as int);
        }
        let ghost before = order@;
        order.insert(j, i);
        assert forall|k: int| 0 <= k < order@.len() implies (#[trigger] order@[k] as int) < i + 1 by {
            if k > j {
                assert(order@[k] == before[k - 1]);
            } else if k < j {
                assert(order@[k] == before[k]);
            }
        }
        i += 1;
    }
    proof {
        lemma_stable_order_bounds(keys@, n as nat, descending);
    }
    order
}

} // verus!
