//! Stable sorting by an integer key.

use crate::seqs::views;
use vstd::prelude::*;

verus! {

/// Values that are ordered by a 64-bit key.
pub trait HasKey: Sized {
    spec fn spec_key(&self) -> u64;
}

/// Values whose key can be read.
pub trait Keyed: HasKey {
    fn key(&self) -> (k: u64)
        ensures
            k == self.spec_key(),
    ;
}

/// No key is below one that stands before it.
pub open spec fn in_key_order<T: HasKey>(s: Seq<T>) -> bool {
    forall|i: int, j: int|
        0 <= i < j < s.len() ==> (#[trigger] s[i]).spec_key() <= (#[trigger] s[j]).spec_key()
}

/// The place behind the last element whose key is at most `key`.
pub open spec fn place_behind<T: HasKey>(s: Seq<T>, key: u64) -> int
    decreases s.len(),
{
    if s.len() == 0 {
        0
    } else if s.last().spec_key() <= key {
        s.len() as int
    } else {
        place_behind(s.drop_last(), key)
    }
}

/// `s` in key order, equal keys in the order in which they stand in `s`.
pub open spec fn stable_sort<T: HasKey>(s: Seq<T>) -> Seq<T>
    decreases s.len(),
{
    if s.len() == 0 {
        s
    } else {
        let init = stable_sort(s.drop_last());
        init.insert(place_behind(init, s.last().spec_key()), s.last())
    }
}

pub proof fn lemma_place_behind<T: HasKey>(s: Seq<T>, key: u64)
    requires
        in_key_order(s),
    ensures
        0 <= place_behind(s, key) <= s.len(),
        forall|i: int| 0 <= i < place_behind(s, key) ==> (#[trigger] s[i]).spec_key() <= key,
        forall|i: int| place_behind(s, key) <= i < s.len() ==> (#[trigger] s[i]).spec_key() > key,
    decreases s.len(),
{
    if s.len() > 0 && s.last().spec_key() > key {
        let init = s.drop_last();
        lemma_place_behind(init, key);
        assert forall|i: int| 0 <= i < place_behind(s, key) implies (#[trigger] s[i]).spec_key()
            <= key by {
            assert(s[i] == init[i]);
        }
        assert forall|i: int| place_behind(s, key) <= i < s.len() implies (
        #[trigger] s[i]).spec_key() > key by {
            if i < init.len() {
                assert(s[i] == init[i]);
            }
        }
    }
}

proof fn lemma_place_behind_is<T: HasKey>(s: Seq<T>, key: u64, n: int)
    requires
        in_key_order(s),
        0 <= n <= s.len(),
        n > 0 ==> s[n - 1].spec_key() <= key,
        n < s.len() ==> s[n].spec_key() > key,
    ensures
        place_behind(s, key) == n,
{
    lemma_place_behind(s, key);
    let b = place_behind(s, key);
    if b < n {
        assert(s[b].spec_key() <= s[n - 1].spec_key());
    }
    if b > n {
        assert(s[n].spec_key() <= key);
    }
}

/// Sorting keeps the number of elements and puts the keys in order.
pub proof fn lemma_stable_sort_orders<T: HasKey>(s: Seq<T>)
    ensures
        stable_sort(s).len() == s.len(),
        in_key_order(stable_sort(s)),
    decreases s.len(),
{
    if s.len() > 0 {
        lemma_stable_sort_orders(s.drop_last());
        let init = stable_sort(s.drop_last());
        let x = s.last();
        lemma_place_behind(init, x.spec_key());
        let p = place_behind(init, x.spec_key());
        let t = init.insert(p, x);
        assert forall|i: int, j: int| 0 <= i < j < t.len() implies (#[trigger] t[i]).spec_key() <= (
        #[trigger] t[j]).spec_key() by {
            let oi = if i < p {
                i
            } else {
                i - 1
            };
            let oj = if j < p {
                j
            } else {
                j - 1
            };
            if i != p {
                assert(t[i] == init[oi]);
            }
            if j != p {
                assert(t[j] == init[oj]);
            }
        }
    }
}

/// Sorting keeps the elements.
pub proof fn lemma_stable_sort_keeps_elements<T: HasKey>(s: Seq<T>)
    ensures
        stable_sort(s).to_multiset() =~= s.to_multiset(),
    decreases s.len(),
{
    broadcast use vstd::seq_lib::group_to_multiset_ensures;

    if s.len() > 0 {
        lemma_stable_sort_keeps_elements(s.drop_last());
        lemma_stable_sort_orders(s.drop_last());
        let init = stable_sort(s.drop_last());
        lemma_place_behind(init, s.last().spec_key());
        assert(s =~= s.drop_last().push(s.last()));
    }
}

/// Every element of a sequence is in its sorted form, and the other way round.
pub proof fn lemma_stable_sort_contains<T: HasKey>(s: Seq<T>, x: T)
    ensures
        stable_sort(s).contains(x) == s.contains(x),
{
    lemma_stable_sort_keeps_elements(s);
    broadcast use vstd::seq_lib::group_to_multiset_ensures;

    assert(stable_sort(s).to_multiset().count(x) == s.to_multiset().count(x));
}

/// What is in key order is its own sorted form.
pub proof fn lemma_sorted_is_fixed<T: HasKey>(s: Seq<T>)
    requires
        in_key_order(s),
    ensures
        stable_sort(s) == s,
    decreases s.len(),
{
    if s.len() > 0 {
        let init = s.drop_last();
        assert(in_key_order(init)) by {
            assert forall|i: int, j: int| 0 <= i < j < init.len() implies (
            #[trigger] init[i]).spec_key() <= (#[trigger] init[j]).spec_key() by {
                assert(s[i].spec_key() <= s[j].spec_key());
            }
        }
        lemma_sorted_is_fixed(init);
        if init.len() > 0 {
            assert(init.last() == s[s.len() - 2]);
        }
        lemma_place_behind_is(init, s.last().spec_key(), init.len() as int);
        assert(init.insert(init.len() as int, s.last()) =~= s);
    }
}

/// Whether values and what they stand for have the same keys.
pub open spec fn views_keep_keys<T: HasKey + View>() -> bool where T::V: HasKey {
    forall|x: T| (#[trigger] x@).spec_key() == x.spec_key()
}

proof fn lemma_place_behind_views<T: HasKey + View>(s: Seq<T>, key: u64) where T::V: HasKey
    requires
        views_keep_keys::<T>(),
    ensures
        place_behind(views(s), key) == place_behind(s, key),
        0 <= place_behind(s, key) <= s.len(),
    decreases s.len(),
{
    if s.len() > 0 {
        assert(views(s).drop_last() =~= views(s.drop_last()));
        assert(views(s).last() == s.last()@);
        lemma_place_behind_views(s.drop_last(), key);
    }
}

/// Sorting values sorts what they stand for.
pub proof fn lemma_sort_views<T: HasKey + View>(s: Seq<T>) where T::V: HasKey
    requires
        views_keep_keys::<T>(),
    ensures
        views(stable_sort(s)) == stable_sort(views(s)),
    decreases s.len(),
{
    if s.len() > 0 {
        let init = stable_sort(s.drop_last());
        let x = s.last();
        lemma_sort_views(s.drop_last());
        assert(views(s).drop_last() =~= views(s.drop_last()));
        assert(views(s).last() == x@);
        lemma_place_behind_views(init, x.spec_key());
        let p = place_behind(init, x.spec_key());
        assert(views(init.insert(p, x)) =~= views(init).insert(p, x@));
    } else {
        assert(views(s) =~= Seq::<T::V>::empty());
    }
}

/// The number of elements whose keys are at most `key`.
pub fn count_up_to<T: Keyed>(sorted: &Vec<T>, key: u64) -> (r: usize)
    requires
        in_key_order(sorted@),
    ensures
        r == place_behind(sorted@, key),
        r <= sorted@.len(),
{
    let ghost s = sorted@;
    let mut lo: usize = 0;
    let mut hi: usize = sorted.len();
    while lo < hi
        invariant
            s == sorted@,
            in_key_order(s),
            lo <= hi <= s.len(),
            lo > 0 ==> s[lo - 1].spec_key() <= key,
            hi < s.len() ==> s[hi as int].spec_key() > key,
        decreases hi - lo,
    {
        let mid: usize = lo + (hi - lo) / 2;
        if sorted[mid].key() <= key {
            lo = mid + 1;
        } else {
            hi = mid;
        }
    }
    proof {
        lemma_place_behind_is(s, key, lo as int);
    }
    lo
}

fn insert_stably<T: Keyed>(sorted: &mut Vec<T>, x: T)
    requires
        in_key_order(old(sorted)@),
    ensures
        final(sorted)@ == old(sorted)@.insert(place_behind(old(sorted)@, x.spec_key()), x),
{
    let place: usize = count_up_to(sorted, x.key());
    sorted.insert(place, x);
}

/// The elements in key order, equal keys in the order in which they came.
pub fn sort_stably<T: Keyed>(items: Vec<T>) -> (r: Vec<T>)
    ensures
        r@ == stable_sort(items@),
{
    let ghost all = items@;
    let mut rest = items;
    let mut i: usize = 0;
    let n: usize = rest.len();
    // Take the elements from the back of the reversed list: first come first.
    let mut reversed: Vec<T> = Vec::new();
    while i < n
        invariant
            i <= n == all.len(),
            rest@ == all.take(n - i),
            reversed@ == all.skip(n - i).reverse(),
        decreases n - i,
    {
        let x = rest.pop().unwrap();
        proof {
            assert(all.take(n - i).drop_last() =~= all.take(n - i - 1));
            assert(all.skip(n - i).reverse().push(all[n - i - 1]) =~= all.skip(n - i - 1).reverse());
        }
        reversed.push(x);
        i += 1;
    }
    assert(reversed@ =~= all.reverse());
    let mut sorted: Vec<T> = Vec::new();
    let mut done: usize = 0;
    assert(all.take(0) =~= Seq::<T>::empty());
    while done < n
        invariant
            done <= n == all.len(),
            reversed@ == all.skip(done as int).reverse(),
            sorted@ == stable_sort(all.take(done as int)),
        decreases n - done,
    {
        let x = reversed.pop().unwrap();
        proof {
            assert(x == all[done as int]);
            assert(all.skip(done as int).reverse().drop_last() =~= all.skip(done + 1).reverse());
            assert(all.take(done + 1).drop_last() =~= all.take(done as int));
            lemma_stable_sort_orders(all.take(done as int));
        }
        insert_stably(&mut sorted, x);
        done += 1;
    }
    assert(all.take(n as int) =~= all);
    sorted
}

/// The place behind the last element whose key is below `key`.
pub open spec fn place_before<T: HasKey>(s: Seq<T>, key: int) -> int
    decreases s.len(),
{
    if s.len() == 0 {
        0
    } else if s.last().spec_key() < key {
        s.len() as int
    } else {
        place_before(s.drop_last(), key)
    }
}

/// The elements with keys from `lo` up to `hi`.
pub open spec fn key_window<T: HasKey>(s: Seq<T>, lo: int, hi: int) -> Seq<T> {
    s.subrange(place_before(s, lo), place_before(s, hi))
}

pub proof fn lemma_place_before<T: HasKey>(s: Seq<T>, key: int)
    requires
        in_key_order(s),
    ensures
        0 <= place_before(s, key) <= s.len(),
        forall|i: int| 0 <= i < place_before(s, key) ==> (#[trigger] s[i]).spec_key() < key,
        forall|i: int| place_before(s, key) <= i < s.len() ==> (#[trigger] s[i]).spec_key() >= key,
    decreases s.len(),
{
    if s.len() > 0 {
        if s.last().spec_key() < key {
            assert forall|i: int| 0 <= i < s.len() implies (#[trigger] s[i]).spec_key() < key by {
                if i < s.len() - 1 {
                    assert(s[i].spec_key() <= s[s.len() - 1].spec_key());
                }
            }
        } else {
            let init = s.drop_last();
            assert forall|i: int, j: int| 0 <= i < j < init.len() implies (
            #[trigger] init[i]).spec_key() <= (#[trigger] init[j]).spec_key() by {
                assert(s[i].spec_key() <= s[j].spec_key());
            }
            lemma_place_before(init, key);
            assert forall|i: int| 0 <= i < place_before(s, key) implies (
            #[trigger] s[i]).spec_key() < key by {
                assert(s[i] == init[i]);
            }
            assert forall|i: int| place_before(s, key) <= i < s.len() implies (
            #[trigger] s[i]).spec_key() >= key by {
                if i < init.len() {
                    assert(s[i] == init[i]);
                }
            }
        }
    }
}

/// The number of elements whose keys are below `key`.
pub fn count_below<T: Keyed>(sorted: &Vec<T>, key: u64) -> (r: usize)
    requires
        in_key_order(sorted@),
    ensures
        r == place_before(sorted@, key as int),
        r <= sorted@.len(),
{
    let ghost s = sorted@;
    let mut lo: usize = 0;
    let mut hi: usize = sorted.len();
    while lo < hi
        invariant
            s == sorted@,
            in_key_order(s),
            lo <= hi <= s.len(),
            lo > 0 ==> s[lo - 1].spec_key() < key,
            hi < s.len() ==> s[hi as int].spec_key() >= key,
        decreases hi - lo,
    {
        let mid: usize = lo + (hi - lo) / 2;
        if sorted[mid].key() < key {
            lo = mid + 1;
        } else {
            hi = mid;
        }
    }
    proof {
        lemma_place_before(s, key as int);
        let n = place_before(s, key as int);
        if n < lo {
            assert(s[n].spec_key() >= key);
            if n < lo - 1 {
                assert(s[n].spec_key() <= s[lo - 1].spec_key());
            }
        }
        if lo < n {
            assert(s[lo as int].spec_key() < key);
        }
    }
    lo
}

/// `place_before` does not decrease with the key.
pub proof fn lemma_place_before_monotone<T: HasKey>(s: Seq<T>, lo: int, hi: int)
    requires
        in_key_order(s),
        lo <= hi,
    ensures
        0 <= place_before(s, lo) <= place_before(s, hi) <= s.len(),
{
    lemma_place_before(s, lo);
    lemma_place_before(s, hi);
    if place_before(s, hi) < place_before(s, lo) {
        assert(s[place_before(s, hi)].spec_key() < lo);
    }
}

impl HasKey for u64 {
    open spec fn spec_key(&self) -> u64 {
        *self
    }
}

impl Keyed for u64 {
    fn key(&self) -> (k: u64) {
        *self
    }
}

} // verus!
