//! Values by name, in name order.

use crate::text::chars_of;
use vstd::prelude::*;

verus! {

/// Whether `a` comes before `b` in the order of code points, which is also the
/// order of their UTF-8 encodings.
pub open spec fn text_less(a: Seq<char>, b: Seq<char>) -> bool
    decreases a.len(),
{
    if b.len() == 0 {
        false
    } else if a.len() == 0 {
        true
    } else if a[0] != b[0] {
        a[0] < b[0]
    } else {
        text_less(a.skip(1), b.skip(1))
    }
}

/// The order of texts is transitive.
pub proof fn lemma_text_less_transitive(a: Seq<char>, b: Seq<char>, c: Seq<char>)
    requires
        text_less(a, b),
        text_less(b, c),
    ensures
        text_less(a, c),
    decreases a.len(),
{
    if a.len() > 0 && a[0] == b[0] && b[0] == c[0] {
        lemma_text_less_transitive(a.skip(1), b.skip(1), c.skip(1));
    }
}

/// No text comes before itself.
pub proof fn lemma_text_less_irreflexive(a: Seq<char>)
    ensures
        !text_less(a, a),
    decreases a.len(),
{
    if a.len() > 0 {
        lemma_text_less_irreflexive(a.skip(1));
    }
}

/// Of two different texts one comes before the other.
pub proof fn lemma_text_less_total(a: Seq<char>, b: Seq<char>)
    ensures
        a == b || text_less(a, b) || text_less(b, a),
    decreases a.len(),
{
    if a.len() > 0 && b.len() > 0 && a[0] == b[0] {
        lemma_text_less_total(a.skip(1), b.skip(1));
        if a.skip(1) == b.skip(1) {
            assert(a =~= seq![a[0]] + a.skip(1));
            assert(b =~= seq![b[0]] + b.skip(1));
        }
    } else if a.len() == 0 && b.len() == 0 {
        assert(a =~= b);
    }
}

/// Whether `a` comes before `b` in code-point order.
pub fn comes_before(a: &str, b: &str) -> (r: bool)
    ensures
        r == text_less(a@, b@),
{
    let x = chars_of(a);
    let y = chars_of(b);
    let mut i: usize = 0;
    assert(x@.skip(0) =~= a@ && y@.skip(0) =~= b@);
    while i < x.len() && i < y.len() && x[i] == y[i]
        invariant
            i <= x@.len(),
            i <= y@.len(),
            text_less(a@, b@) == text_less(x@.skip(i as int), y@.skip(i as int)),
        decreases x@.len() - i,
    {
        assert(x@.skip(i as int).skip(1) =~= x@.skip(i + 1));
        assert(y@.skip(i as int).skip(1) =~= y@.skip(i + 1));
        i += 1;
    }
    if i >= y.len() {
        false
    } else if i >= x.len() {
        true
    } else {
        x[i] < y[i]
    }
}

/// The names of `s` strictly increase.
pub open spec fn names_increase<V>(s: Seq<(Seq<char>, V)>) -> bool {
    forall|i: int, j: int|
        0 <= i < j < s.len() ==> text_less((#[trigger] s[i]).0, (#[trigger] s[j]).0)
}

/// The place behind the last entry whose name comes before `name`.
pub open spec fn place_of<V>(s: Seq<(Seq<char>, V)>, name: Seq<char>) -> int
    decreases s.len(),
{
    if s.len() == 0 {
        0
    } else if text_less(s.last().0, name) {
        s.len() as int
    } else {
        place_of(s.drop_last(), name)
    }
}

/// The value under `name`.
pub open spec fn named_value<V>(s: Seq<(Seq<char>, V)>, name: Seq<char>) -> Option<V> {
    let i = place_of(s, name);
    if i < s.len() && s[i].0 == name {
        Some(s[i].1)
    } else {
        None
    }
}

/// `s` with `value` under `name`.
pub open spec fn put_named<V>(s: Seq<(Seq<char>, V)>, name: Seq<char>, value: V) -> Seq<
    (Seq<char>, V),
> {
    let i = place_of(s, name);
    if named_value(s, name) is Some {
        s.update(i, (name, value))
    } else {
        s.insert(i, (name, value))
    }
}

pub proof fn lemma_place_of<V>(s: Seq<(Seq<char>, V)>, name: Seq<char>)
    requires
        names_increase(s),
    ensures
        0 <= place_of(s, name) <= s.len(),
        forall|i: int| 0 <= i < place_of(s, name) ==> text_less((#[trigger] s[i]).0, name),
        forall|i: int| place_of(s, name) <= i < s.len() ==> !text_less((#[trigger] s[i]).0, name),
    decreases s.len(),
{
    if s.len() > 0 {
        if text_less(s.last().0, name) {
            assert forall|i: int| 0 <= i < s.len() implies text_less(
                (#[trigger] s[i]).0,
                name,
            ) by {
                if i < s.len() - 1 {
                    lemma_text_less_transitive(s[i].0, s.last().0, name);
                }
            }
        } else {
            let init = s.drop_last();
            assert(names_increase(init)) by {
                assert forall|i: int, j: int| 0 <= i < j < init.len() implies text_less(
                    (#[trigger] init[i]).0,
                    (#[trigger] init[j]).0,
                ) by {
                    assert(text_less(s[i].0, s[j].0));
                }
            }
            lemma_place_of(init, name);
            assert forall|i: int| 0 <= i < place_of(s, name) implies text_less(
                (#[trigger] s[i]).0,
                name,
            ) by {
                assert(s[i] == init[i]);
            }
            assert forall|i: int| place_of(s, name) <= i < s.len() implies !text_less(
                (#[trigger] s[i]).0,
                name,
            ) by {
                if i < init.len() {
                    assert(s[i] == init[i]);
                }
            }
        }
    }
}

proof fn lemma_place_is<V>(s: Seq<(Seq<char>, V)>, name: Seq<char>, n: int)
    requires
        names_increase(s),
        0 <= n <= s.len(),
        n > 0 ==> text_less(s[n - 1].0, name),
        n < s.len() ==> !text_less(s[n].0, name),
    ensures
        place_of(s, name) == n,
{
    lemma_place_of(s, name);
    let p = place_of(s, name);
    if p < n {
        assert(!text_less(s[p].0, name));
        if p < n - 1 {
            assert(text_less(s[p].0, s[n - 1].0));
            lemma_text_less_transitive(s[p].0, s[n - 1].0, name);
        }
    }
    if p > n {
        assert(text_less(s[n].0, name));
    }
}

/// Putting a value keeps the names increasing.
pub proof fn lemma_put_named_keeps_order<V>(s: Seq<(Seq<char>, V)>, name: Seq<char>, value: V)
    requires
        names_increase(s),
    ensures
        names_increase(put_named(s, name, value)),
{
    lemma_place_of(s, name);
    let p = place_of(s, name);
    let t = put_named(s, name, value);
    if named_value(s, name) is Some {
        assert forall|i: int, j: int| 0 <= i < j < t.len() implies text_less(
            (#[trigger] t[i]).0,
            (#[trigger] t[j]).0,
        ) by {
            assert(t[i].0 == s[i].0 && t[j].0 == s[j].0);
        }
    } else {
        assert forall|i: int, j: int| 0 <= i < j < t.len() implies text_less(
            (#[trigger] t[i]).0,
            (#[trigger] t[j]).0,
        ) by {
            let oi = if i < p {
                i
            } else {
                i - 1
            };
            let oj = if j < p {
                j
            } else {
                j - 1
            };
            if i != p {
                assert(t[i] == s[oi]);
            }
            if j != p {
                assert(t[j] == s[oj]);
            }
            if i == p {
                lemma_text_less_total(name, s[oj].0);
                if oj > p && s[p].0 == name {
                    assert(false);
                } else if s[oj].0 == name {
                    assert(!text_less(s[p].0, name));
                    if oj > p {
                        assert(text_less(s[p].0, s[oj].0));
                    }
                }
            }
        }
    }
}

/// What was put under a name is read back under it, and every other name keeps
/// its value.
pub proof fn lemma_put_named_then_read<V>(
    s: Seq<(Seq<char>, V)>,
    name: Seq<char>,
    value: V,
    other: Seq<char>,
)
    requires
        names_increase(s),
    ensures
        named_value(put_named(s, name, value), name) == Some(value),
        other != name ==> named_value(put_named(s, name, value), other) == named_value(s, other),
{
    lemma_put_named_keeps_order(s, name, value);
    lemma_place_of(s, name);
    lemma_place_of(s, other);
    let t = put_named(s, name, value);
    let i = place_of(s, name);
    let o = place_of(s, other);
    lemma_text_less_irreflexive(name);
    if i > 0 {
        assert(t[i - 1] == s[i - 1]);
    }
    lemma_place_is(t, name, i);
    if other != name {
        lemma_text_less_total(name, other);
        if named_value(s, name) is Some {
            if o < s.len() {
                assert(t[o].0 == s[o].0);
            }
            if o > 0 {
                assert(t[o - 1].0 == s[o - 1].0);
            }
            lemma_place_is(t, other, o);
        } else if text_less(other, name) {
            if o > i {
                assert(text_less(s[i].0, other));
                lemma_text_less_transitive(s[i].0, other, name);
            }
            if text_less(name, other) {
                lemma_text_less_transitive(other, name, other);
                lemma_text_less_irreflexive(other);
            }
            if o > 0 {
                assert(t[o - 1] == s[o - 1]);
            }
            if o < i {
                assert(t[o] == s[o]);
            }
            lemma_place_is(t, other, o);
        } else {
            if o < i {
                assert(text_less(s[o].0, name));
                lemma_text_less_transitive(s[o].0, name, other);
            }
            if o > i {
                assert(t[o] == s[o - 1]);
            }
            if o < s.len() {
                assert(t[o + 1] == s[o]);
            }
            lemma_place_is(t, other, o + 1);
        }
    }
}

/// Values by name, in name order.
pub struct TextMap<V> {
    pub entries: Vec<(String, V)>,
}

impl<V: View> View for TextMap<V> {
    type V = Seq<(Seq<char>, V::V)>;

    open spec fn view(&self) -> Seq<(Seq<char>, V::V)> {
        self.entries@.map_values(|e: (String, V)| (e.0@, e.1@))
    }
}

impl<V: View> TextMap<V> {
    pub open spec fn wf(&self) -> bool {
        names_increase(self@)
    }

    pub fn new() -> (r: TextMap<V>)
        ensures
            r.wf(),
            r@ == Seq::<(Seq<char>, V::V)>::empty(),
    {
        TextMap { entries: Vec::new() }
    }

    fn place(&self, name: &str) -> (r: usize)
        requires
            self.wf(),
        ensures
            r == place_of(self@, name@),
            r <= self@.len(),
    {
        let mut lo: usize = 0;
        let mut hi: usize = self.entries.len();
        while lo < hi
            invariant
                self.wf(),
                lo <= hi <= self.entries@.len(),
                lo > 0 ==> text_less(self@[lo - 1].0, name@),
                hi < self@.len() ==> !text_less(self@[hi as int].0, name@),
            decreases hi - lo,
        {
            let mid: usize = lo + (hi - lo) / 2;
            assert(self@[mid as int].0 == self.entries@[mid as int].0@);
            if comes_before(self.entries[mid].0.as_str(), name) {
                lo = mid + 1;
            } else {
                hi = mid;
            }
        }
        proof {
            lemma_place_is(self@, name@, lo as int);
        }
        lo
    }

    pub fn get(&self, name: &str) -> (r: Option<&V>)
        requires
            self.wf(),
        ensures
            match r {
                Some(v) => named_value(self@, name@) == Some(v@),
                None => named_value(self@, name@) is None,
            },
    {
        let i: usize = self.place(name);
        if i < self.entries.len() && crate::text::same_text(self.entries[i].0.as_str(), name) {
            Some(&self.entries[i].1)
        } else {
            None
        }
    }

    pub fn insert(&mut self, name: String, value: V)
        requires
            old(self).wf(),
        ensures
            final(self).wf(),
            final(self)@ == put_named(old(self)@, name@, value@),
    {
        proof {
            lemma_put_named_keeps_order(self@, name@, value@);
            lemma_place_of(self@, name@);
        }
        let ghost before = self@;
        let ghost raw = self.entries@;
        let i: usize = self.place(name.as_str());
        if i < self.entries.len() && crate::text::same_text(
            self.entries[i].0.as_str(),
            name.as_str(),
        ) {
            self.entries.set(i, (name, value));
            assert(self.entries@ == raw.update(i as int, (name, value)));
        } else {
            self.entries.insert(i, (name, value));
            assert(self.entries@ == raw.insert(i as int, (name, value)));
        }
        assert(self@ =~= put_named(before, name@, value@));
    }
}

} // verus!
