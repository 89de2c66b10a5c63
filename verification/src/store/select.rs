//! Picking the first few of a list of keys in ascending or descending order.

use vstd::prelude::*;

verus! {

/// Whether place `a` stands before place `b`: its key comes first in the
/// chosen direction, or the keys are equal and `a` is the earlier place.
pub open spec fn stands_before(keys: Seq<int>, descending: bool, a: int, b: int) -> bool {
    if keys[a] == keys[b] {
        a < b
    } else if descending {
        keys[a] > keys[b]
    } else {
        keys[a] < keys[b]
    }
}

/// Whether `picked` lists, in order, the `limit` foremost places of `keys`
/// (all of them where there are fewer): each place in range, each before the
/// next, and each before every place that was left out.
pub open spec fn is_selection(
    keys: Seq<int>,
    limit: int,
    descending: bool,
    picked: Seq<usize>,
) -> bool {
    &&& picked.len() == if limit <= keys.len() {
        limit
    } else {
        keys.len() as int
    }
    &&& forall|i: int| 0 <= i < picked.len() ==> (#[trigger] picked[i]) < keys.len()
    &&& forall|i: int, j: int|
        0 <= i < j < picked.len() ==> stands_before(
            keys,
            descending,
            #[trigger] picked[i] as int,
            #[trigger] picked[j] as int,
        )
    &&& forall|m: int, i: int|
        0 <= m < keys.len() && 0 <= i < picked.len() && !as_places(picked).contains(m)
            ==> #[trigger] stands_before(keys, descending, picked[i] as int, m)
}

/// A list of places as integers.
pub open spec fn as_places(at: Seq<usize>) -> Seq<int> {
    Seq::new(at.len(), |k: int| at[k] as int)
}

/// A list of machine integers as integers.
pub open spec fn integers(keys: Seq<i64>) -> Seq<int> {
    Seq::new(keys.len(), |i: int| keys[i] as int)
}

/// The places of the items that `keep` holds of, in ascending order.
pub open spec fn places<T>(items: Seq<T>, keep: spec_fn(T) -> bool) -> Seq<int>
    decreases items.len(),
{
    if items.len() == 0 {
        Seq::empty()
    } else if keep(items.last()) {
        places(items.drop_last(), keep).push(items.len() - 1)
    } else {
        places(items.drop_last(), keep)
    }
}

/// `places` lists exactly the places of the kept items, each once and in
/// ascending order.
pub proof fn lemma_places<T>(items: Seq<T>, keep: spec_fn(T) -> bool)
    ensures
        places(items, keep).len() <= items.len(),
        forall|k: int|
            0 <= k < places(items, keep).len() ==> 0 <= (#[trigger] places(items, keep)[k])
                < items.len() && keep(items[places(items, keep)[k]]),
        forall|k: int, l: int|
            0 <= k < l < places(items, keep).len() ==> (#[trigger] places(items, keep)[k]) < (
            #[trigger] places(items, keep)[l]),
        forall|i: int|
            0 <= i < items.len() && keep(#[trigger] items[i]) ==> places(items, keep).contains(i),
    decreases items.len(),
{
    if items.len() > 0 {
        let init = items.drop_last();
        lemma_places(init, keep);
        let before = places(init, keep);
        let now = places(items, keep);
        assert forall|k: int| 0 <= k < now.len() implies 0 <= (#[trigger] now[k]) < items.len()
            && keep(items[now[k]]) by {
            if k < before.len() {
                assert(now[k] == before[k]);
                assert(init[before[k]] == items[before[k]]);
            }
        }
        assert forall|k: int, l: int| 0 <= k < l < now.len() implies (#[trigger] now[k]) < (
        #[trigger] now[l]) by {
            assert(now[k] == before[k]);
            if l < before.len() {
                assert(now[l] == before[l]);
            }
        }
        assert forall|i: int| 0 <= i < items.len() && keep(#[trigger] items[i]) implies now.contains(
            i,
        ) by {
            if i < items.len() - 1 {
                assert(init[i] == items[i]);
                assert(before.contains(i));
                let k = choose|k: int| 0 <= k < before.len() && before[k] == i;
                assert(now[k] == i);
            } else {
                assert(now[now.len() - 1] == i);
            }
        }
    }
}

/// The `limit` foremost places of `keys`, foremost first: by key in the
/// chosen direction, and among equal keys the earlier place first.
pub fn select_first(keys: &Vec<i64>, limit: usize, descending: bool) -> (picked: Vec<usize>)
    ensures
        is_selection(integers(keys@), limit as int, descending, picked@),
{
    let n: usize = keys.len();
    let ghost ks = integers(keys@);
    let wanted: usize = if limit <= n { limit } else { n };
    let mut taken: Vec<bool> = Vec::new();
    let mut t: usize = 0;
    while t < n
        invariant
            t <= n,
            taken@.len() == t,
            forall|m: int| 0 <= m < t ==> !taken@[m],
            count_set(taken@) == 0,
        decreases n - t,
    {
        assert(taken@.push(false).drop_last() =~= taken@);
        taken.push(false);
        t = t + 1;
    }
    let mut picked: Vec<usize> = Vec::new();
    while picked.len() < wanted
        invariant
            n == keys@.len(),
            ks == integers(keys@),
            wanted <= n,
            taken@.len() == n,
            picked@.len() <= wanted,
            count_set(taken@) == picked@.len(),
            forall|i: int| 0 <= i < picked@.len() ==> (#[trigger] picked@[i]) < n,
            forall|i: int| 0 <= i < picked@.len() ==> taken@[(#[trigger] picked@[i]) as int],
            forall|m: int| 0 <= m < n && #[trigger] taken@[m] ==> picked@.contains(m as usize),
            forall|i: int, j: int|
                0 <= i < j < picked@.len() ==> stands_before(
                    ks,
                    descending,
                    #[trigger] picked@[i] as int,
                    #[trigger] picked@[j] as int,
                ),
            forall|m: int, i: int|
                0 <= m < n && 0 <= i < picked@.len() && !taken@[m] ==> #[trigger] stands_before(
                    ks,
                    descending,
                    picked@[i] as int,
                    m,
                ),
        decreases wanted - picked@.len(),
    {
        let mut best: usize = 0;
        let mut found: bool = false;
        let mut m: usize = 0;
        proof {
            lemma_one_free(taken@);
        }
        while m < n
            invariant
                n == keys@.len(),
                ks == integers(keys@),
                taken@.len() == n,
                m <= n,
                found ==> best < m && !taken@[best as int],
                found ==> forall|o: int|
                    0 <= o < m && o != best && !taken@[o] ==> #[trigger] stands_before(
                        ks,
                        descending,
                        best as int,
                        o,
                    ),
                !found ==> forall|o: int| 0 <= o < m ==> #[trigger] taken@[o],
            decreases n - m,
        {
            if !taken[m] {
                if !found {
                    best = m;
                    found = true;
                } else if (descending && keys[m] > keys[best]) || (!descending && keys[m]
                    < keys[best]) {
                    proof {
                        assert forall|o: int|
                            0 <= o < m + 1 && o != m && !taken@[o] implies #[trigger] stands_before(
                            ks,
                            descending,
                            m as int,
                            o,
                        ) by {
                            if o != best {
                                assert(stands_before(ks, descending, best as int, o));
                            }
                        }
                    }
                    best = m;
                }
            }
            m = m + 1;
        }
        assert(found);
        let ghost before = picked@;
        let ghost free = taken@;
        proof {
            lemma_count_set_grows(taken@, best as int);
        }
        taken.set(best, true);
        picked.push(best);
        proof {
            assert forall|o: int| 0 <= o < n && #[trigger] taken@[o] implies picked@.contains(
                o as usize,
            ) by {
                if o == best {
                    assert(picked@[before.len() as int] == best);
                } else {
                    assert(free[o]);
                    assert(before.contains(o as usize));
                    let at = choose|at: int| 0 <= at < before.len() && before[at] == o as usize;
                    assert(picked@[at] == o as usize);
                }
            }
            assert forall|i: int, j: int| 0 <= i < j < picked@.len() implies stands_before(
                ks,
                descending,
                #[trigger] picked@[i] as int,
                #[trigger] picked@[j] as int,
            ) by {
                if j == before.len() {
                    assert(picked@[i] == before[i]);
                    assert(!free[best as int]);
                    assert(stands_before(ks, descending, before[i] as int, best as int));
                } else {
                    assert(picked@[i] == before[i] && picked@[j] == before[j]);
                }
            }
            assert forall|o: int, i: int|
                0 <= o < n && 0 <= i < picked@.len() && !taken@[o] implies #[trigger] stands_before(
                ks,
                descending,
                picked@[i] as int,
                o,
            ) by {
                assert(!free[o]);
                if i < before.len() {
                    assert(picked@[i] == before[i]);
                    assert(stands_before(ks, descending, before[i] as int, o));
                }
            }
        }
    }
    proof {
        assert forall|m: int, i: int|
            0 <= m < n && 0 <= i < picked@.len() && !as_places(picked@).contains(
                m,
            ) implies #[trigger] stands_before(ks, descending, picked@[i] as int, m) by {
            if taken@[m] {
                let p = choose|p: int| 0 <= p < picked@.len() && picked@[p] == m as usize;
                assert(as_places(picked@)[p] == m);
            }
        }
    }
    picked
}

/// Two selections of the same keys agree up to place `upto`.
proof fn lemma_selections_agree(
    keys: Seq<int>,
    limit: int,
    descending: bool,
    a: Seq<usize>,
    b: Seq<usize>,
    upto: int,
)
    requires
        is_selection(keys, limit, descending, a),
        is_selection(keys, limit, descending, b),
        0 <= upto <= a.len(),
    ensures
        forall|j: int| 0 <= j < upto ==> a[j] == b[j],
    decreases upto,
{
    if upto > 0 {
        lemma_selections_agree(keys, limit, descending, a, b, upto - 1);
        let i = upto - 1;
        lemma_pick_not_before(keys, limit, descending, a, b, i);
        lemma_pick_not_before(keys, limit, descending, b, a, i);
    }
}

/// Where two selections agree before place `i`, the pick of the first at
/// `i` does not stand before the pick of the second.
proof fn lemma_pick_not_before(
    keys: Seq<int>,
    limit: int,
    descending: bool,
    one: Seq<usize>,
    other: Seq<usize>,
    i: int,
)
    requires
        is_selection(keys, limit, descending, one),
        is_selection(keys, limit, descending, other),
        0 <= i < one.len(),
        forall|j: int| 0 <= j < i ==> one[j] == other[j],
    ensures
        !stands_before(keys, descending, one[i] as int, other[i] as int),
{
    let x = one[i] as int;
    if stands_before(keys, descending, x, other[i] as int) {
        if as_places(other).contains(x) {
            let j = choose|j: int| 0 <= j < other.len() && as_places(other)[j] == x;
            if j < i {
                assert(one[j] == other[j]);
                assert(stands_before(keys, descending, one[j] as int, one[i] as int));
            } else if j > i {
                assert(stands_before(keys, descending, other[i] as int, other[j] as int));
            }
        } else {
            assert(stands_before(keys, descending, other[i] as int, x));
        }
    }
}

/// The keys and the limit settle the selection: there is no second one.
pub proof fn lemma_selection_unique(
    keys: Seq<int>,
    limit: int,
    descending: bool,
    a: Seq<usize>,
    b: Seq<usize>,
)
    requires
        is_selection(keys, limit, descending, a),
        is_selection(keys, limit, descending, b),
    ensures
        a == b,
{
    lemma_selections_agree(keys, limit, descending, a, b, a.len() as int);
    assert(a =~= b);
}

/// Where the limit is at least the number of the keys, every place is
/// picked.
pub proof fn lemma_selection_of_all(
    keys: Seq<int>,
    limit: int,
    descending: bool,
    picked: Seq<usize>,
)
    requires
        is_selection(keys, limit, descending, picked),
        limit >= keys.len(),
    ensures
        forall|m: int| 0 <= m < keys.len() ==> as_places(picked).contains(m),
{
    let at = as_places(picked);
    let all = vstd::set_lib::set_int_range(0, keys.len() as int);
    assert(at.no_duplicates()) by {
        assert forall|i: int, j: int|
            0 <= i < at.len() && 0 <= j < at.len() && i != j implies at[i] != at[j] by {
            if i < j {
                assert(stands_before(keys, descending, picked[i] as int, picked[j] as int));
            } else {
                assert(stands_before(keys, descending, picked[j] as int, picked[i] as int));
            }
        }
    }
    at.unique_seq_to_set();
    vstd::set_lib::lemma_int_range(0, keys.len() as int);
    assert(at.to_set().subset_of(all)) by {
        assert forall|m: int| at.to_set().contains(m) implies all.contains(m) by {
            let j = choose|j: int| 0 <= j < at.len() && at[j] == m;
            assert(picked[j] < keys.len());
        }
    }
    vstd::set_lib::lemma_len_subset(at.to_set(), all);
    vstd::set_lib::lemma_subset_equality(at.to_set(), all);
    assert forall|m: int| 0 <= m < keys.len() implies at.contains(m) by {
        assert(all.contains(m));
        assert(at.to_set().contains(m));
    }
}

/// How many places of `taken` are set.
pub open spec fn count_set(taken: Seq<bool>) -> nat
    decreases taken.len(),
{
    if taken.len() == 0 {
        0
    } else {
        count_set(taken.drop_last()) + if taken.last() {
            1nat
        } else {
            0nat
        }
    }
}

/// Setting a place that was free raises the count by one.
proof fn lemma_count_set_grows(taken: Seq<bool>, at: int)
    requires
        0 <= at < taken.len(),
        !taken[at],
    ensures
        count_set(taken.update(at, true)) == count_set(taken) + 1,
    decreases taken.len(),
{
    let grown = taken.update(at, true);
    if at == taken.len() - 1 {
        assert(grown.drop_last() =~= taken.drop_last());
    } else {
        assert(grown.drop_last() =~= taken.drop_last().update(at, true));
        lemma_count_set_grows(taken.drop_last(), at);
    }
}

/// Where fewer places are set than there are, one is free.
proof fn lemma_one_free(taken: Seq<bool>)
    requires
        count_set(taken) < taken.len(),
    ensures
        exists|m: int| 0 <= m < taken.len() && !taken[m],
    decreases taken.len(),
{
    if taken.len() > 0 && taken.last() {
        lemma_one_free(taken.drop_last());
        let m = choose|m: int| 0 <= m < taken.drop_last().len() && !taken.drop_last()[m];
        assert(!taken[m]);
    }
}

} // verus!
