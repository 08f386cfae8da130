//! Values by address, in address order.

use vstd::prelude::*;

verus! {

/// The keys of `s` strictly increase.
pub open spec fn keys_increase<V>(s: Seq<(u64, V)>) -> bool {
    forall|i: int, j: int| 0 <= i < j < s.len() ==> (#[trigger] s[i]).0 < (#[trigger] s[j]).0
}

/// The number of leading entries whose keys are below `key`.
pub open spec fn below<V>(s: Seq<(u64, V)>, key: int) -> int
    decreases s.len(),
{
    if s.len() == 0 {
        0
    } else if s.last().0 < key {
        s.len() as int
    } else {
        below(s.drop_last(), key)
    }
}

/// The value under `key`.
pub open spec fn value_at<V>(s: Seq<(u64, V)>, key: u64) -> Option<V> {
    let i = below(s, key as int);
    if i < s.len() && s[i].0 == key {
        Some(s[i].1)
    } else {
        None
    }
}

/// The entry with the greatest key not above `key`.
pub open spec fn last_at_or_before<V>(s: Seq<(u64, V)>, key: u64) -> Option<(u64, V)> {
    let i = below(s, key + 1);
    if i > 0 {
        Some(s[i - 1])
    } else {
        None
    }
}

/// The entries with keys from `lo` up to `hi`.
pub open spec fn window<V>(s: Seq<(u64, V)>, lo: int, hi: int) -> Seq<(u64, V)> {
    s.subrange(below(s, lo), below(s, hi))
}

/// `s` with `value` under `key`.
pub open spec fn put<V>(s: Seq<(u64, V)>, key: u64, value: V) -> Seq<(u64, V)> {
    let i = below(s, key as int);
    if value_at(s, key) is Some {
        s.update(i, (key, value))
    } else {
        s.subrange(0, i).push((key, value)) + s.subrange(i, s.len() as int)
    }
}

/// Where keys increase, exactly the first `below(s, key)` entries lie below
/// `key`.
pub proof fn lemma_below<V>(s: Seq<(u64, V)>, key: int)
    requires
        keys_increase(s),
    ensures
        0 <= below(s, key) <= s.len(),
        forall|i: int| 0 <= i < below(s, key) ==> (#[trigger] s[i]).0 < key,
        forall|i: int| below(s, key) <= i < s.len() ==> (#[trigger] s[i]).0 >= key,
    decreases s.len(),
{
    if s.len() > 0 && s.last().0 >= key {
        let init = s.drop_last();
        lemma_below(init, key);
        assert forall|i: int| 0 <= i < below(s, key) implies (#[trigger] s[i]).0 < key by {
            assert(s[i] == init[i]);
        }
        assert forall|i: int| below(s, key) <= i < s.len() implies (#[trigger] s[i]).0 >= key by {
            if i < init.len() {
                assert(s[i] == init[i]);
            }
        }
    }
}

/// The boundary between keys below `key` and the others is `below(s, key)`.
pub proof fn lemma_below_is<V>(s: Seq<(u64, V)>, key: int, n: int)
    requires
        keys_increase(s),
        0 <= n <= s.len(),
        n > 0 ==> s[n - 1].0 < key,
        n < s.len() ==> s[n].0 >= key,
    ensures
        below(s, key) == n,
{
    lemma_below(s, key);
    let b = below(s, key);
    if b < n {
        assert(s[b].0 <= s[n - 1].0);
    }
    if b > n {
        assert(s[n].0 < key);
    }
}

/// `below` does not decrease with the key.
pub proof fn lemma_below_monotone<V>(s: Seq<(u64, V)>, lo: int, hi: int)
    requires
        keys_increase(s),
        lo <= hi,
    ensures
        0 <= below(s, lo) <= below(s, hi) <= s.len(),
{
    lemma_below(s, lo);
    lemma_below(s, hi);
    if below(s, hi) < below(s, lo) {
        assert(s[below(s, hi)].0 < lo);
    }
}

/// Putting a value keeps the keys increasing.
pub proof fn lemma_put_keeps_order<V>(s: Seq<(u64, V)>, key: u64, value: V)
    requires
        keys_increase(s),
    ensures
        keys_increase(put(s, key, value)),
{
    lemma_below(s, key as int);
    let i = below(s, key as int);
    let t = put(s, key, value);
    if value_at(s, key) is None {
        assert forall|a: int, b: int| 0 <= a < b < t.len() implies (#[trigger] t[a]).0 < (
        #[trigger] t[b]).0 by {
            let oa = if a < i {
                a
            } else {
                a - 1
            };
            let ob = if b < i {
                b
            } else {
                b - 1
            };
            if a != i {
                assert(t[a] == s[oa]);
            }
            if b != i {
                assert(t[b] == s[ob]);
            }
        }
    }
}

proof fn lemma_other_key_kept<V>(s: Seq<(u64, V)>, key: u64, value: V, other: u64)
    requires
        keys_increase(s),
        value_at(s, key) is Some,
        other != key,
    ensures
        value_at(put(s, key, value), other) == value_at(s, other),
{
    lemma_put_keeps_order(s, key, value);
    lemma_below(s, key as int);
    lemma_below(s, other as int);
    let t = put(s, key, value);
    let o = below(s, other as int);
    if o < s.len() {
        assert(t[o].0 == s[o].0);
    }
    if o > 0 {
        assert(t[o - 1].0 == s[o - 1].0);
    }
    lemma_below_is(t, other as int, o);
}

proof fn lemma_lower_key_kept<V>(s: Seq<(u64, V)>, key: u64, value: V, other: u64)
    requires
        keys_increase(s),
        value_at(s, key) is None,
        other < key,
    ensures
        value_at(put(s, key, value), other) == value_at(s, other),
{
    lemma_put_keeps_order(s, key, value);
    lemma_below(s, key as int);
    lemma_below(s, other as int);
    lemma_below_monotone(s, other as int, key as int);
    let t = put(s, key, value);
    let i = below(s, key as int);
    let o = below(s, other as int);
    if o > 0 {
        assert(t[o - 1] == s[o - 1]);
    }
    if o < i {
        assert(t[o] == s[o]);
    } else {
        assert(t[o] == (key, value));
    }
    lemma_below_is(t, other as int, o);
}

proof fn lemma_higher_key_kept<V>(s: Seq<(u64, V)>, key: u64, value: V, other: u64)
    requires
        keys_increase(s),
        value_at(s, key) is None,
        key < other,
    ensures
        value_at(put(s, key, value), other) == value_at(s, other),
{
    lemma_put_keeps_order(s, key, value);
    lemma_below(s, key as int);
    lemma_below(s, other as int);
    lemma_below_monotone(s, key as int, other as int);
    let t = put(s, key, value);
    let i = below(s, key as int);
    let o = below(s, other as int);
    if o > i {
        assert(t[o] == s[o - 1]);
    } else {
        assert(t[o] == (key, value));
    }
    if o < s.len() {
        assert(t[o + 1] == s[o]);
    }
    lemma_below_is(t, other as int, o + 1);
}

/// What was put under a key is read back under it, and every other key keeps
/// its value.
pub proof fn lemma_put_then_read<V>(s: Seq<(u64, V)>, key: u64, value: V, other: u64)
    requires
        keys_increase(s),
    ensures
        value_at(put(s, key, value), key) == Some(value),
        other != key ==> value_at(put(s, key, value), other) == value_at(s, other),
{
    lemma_put_keeps_order(s, key, value);
    lemma_below(s, key as int);
    let t = put(s, key, value);
    let i = below(s, key as int);
    lemma_below_is(t, key as int, i);
    if other != key {
        if value_at(s, key) is Some {
            lemma_other_key_kept(s, key, value, other);
        } else if other < key {
            lemma_lower_key_kept(s, key, value, other);
        } else {
            lemma_higher_key_kept(s, key, value, other);
        }
    }
}

/// Values by address, in address order.
pub struct AddrMap<V> {
    pub entries: Vec<(u64, V)>,
}

impl<V: View> View for AddrMap<V> {
    type V = Seq<(u64, V::V)>;

    open spec fn view(&self) -> Seq<(u64, V::V)> {
        self.entries@.map_values(|e: (u64, V)| (e.0, e.1@))
    }
}

impl<V: View> AddrMap<V> {
    pub open spec fn wf(&self) -> bool {
        keys_increase(self@)
    }

    pub fn new() -> (r: AddrMap<V>)
        ensures
            r.wf(),
            r@ == Seq::<(u64, V::V)>::empty(),
    {
        AddrMap { entries: Vec::new() }
    }

    /// The number of entries with keys below `key`.
    pub fn lower(&self, key: u64) -> (r: usize)
        requires
            self.wf(),
        ensures
            r == below(self@, key as int),
            r <= self@.len(),
    {
        let mut lo: usize = 0;
        let mut hi: usize = self.entries.len();
        while lo < hi
            invariant
                self.wf(),
                lo <= hi <= self.entries@.len(),
                lo > 0 ==> self@[lo - 1].0 < key,
                hi < self@.len() ==> self@[hi as int].0 >= key,
            decreases hi - lo,
        {
            let mid: usize = lo + (hi - lo) / 2;
            assert(self@[mid as int].0 == self.entries@[mid as int].0);
            if self.entries[mid].0 < key {
                lo = mid + 1;
            } else {
                hi = mid;
            }
        }
        proof {
            lemma_below_is(self@, key as int, lo as int);
        }
        lo
    }

    /// The number of entries with keys up to and at `key`.
    pub fn upper(&self, key: u64) -> (r: usize)
        requires
            self.wf(),
        ensures
            r == below(self@, key + 1),
            r <= self@.len(),
    {
        let i: usize = self.lower(key);
        proof {
            lemma_below(self@, key as int);
        }
        if i < self.entries.len() && self.entries[i].0 == key {
            assert(self@[i as int].0 == key);
            proof {
                lemma_below_is(self@, key + 1, i + 1);
            }
            i + 1
        } else {
            proof {
                lemma_below_is(self@, key + 1, i as int);
            }
            i
        }
    }

    pub fn get(&self, key: u64) -> (r: Option<&V>)
        requires
            self.wf(),
        ensures
            match r {
                Some(v) => value_at(self@, key) == Some(v@),
                None => value_at(self@, key) is None,
            },
    {
        let i: usize = self.lower(key);
        if i < self.entries.len() && self.entries[i].0 == key {
            assert(self@[i as int] == (key, self.entries@[i as int].1@));
            Some(&self.entries[i].1)
        } else {
            None
        }
    }

    pub fn insert(&mut self, key: u64, value: V)
        requires
            old(self).wf(),
        ensures
            final(self).wf(),
            final(self)@ == put(old(self)@, key, value@),
    {
        proof {
            lemma_put_keeps_order(self@, key, value@);
            lemma_below(self@, key as int);
        }
        let ghost before = self@;
        let ghost raw = self.entries@;
        let i: usize = self.lower(key);
        if i < self.entries.len() && self.entries[i].0 == key {
            assert(before[i as int].0 == key);
            self.entries.set(i, (key, value));
            assert(self.entries@ == raw.update(i as int, (key, value)));
            assert(self@ =~= put(before, key, value@));
        } else {
            self.entries.insert(i, (key, value));
            assert(self.entries@ == raw.insert(i as int, (key, value)));
            assert(self@ =~= put(before, key, value@));
        }
    }
}

} // verus!
