//! A map from texts to values that keeps its keys in order.
use crate::text::{
    lemma_text_lt_asymmetric, lemma_text_lt_irreflexive, lemma_text_lt_total,
    lemma_text_lt_transitive, less, same, text_lt,
};
use vstd::prelude::*;

verus! {

/// A map with text keys. Its entries stand in the order of their keys, and no key
/// occurs twice.
#[derive(Debug)]
pub struct TextMap<V> {
    entries: Vec<(String, V)>,
}

/// Keys in strictly increasing order.
pub open spec fn strictly_increasing(keys: Seq<Seq<char>>) -> bool {
    forall|i: int, j: int|
        0 <= i < j < keys.len() ==> text_lt(#[trigger] keys[i], #[trigger] keys[j])
}

spec fn entry_keys<V>(entries: Seq<(String, V)>) -> Seq<Seq<char>> {
    entries.map_values(|e: (String, V)| e.0@)
}

spec fn entry_values<V>(entries: Seq<(String, V)>) -> Seq<V> {
    entries.map_values(|e: (String, V)| e.1)
}

/// The map that pairs each key with the value at the same position.
pub open spec fn zipped<V>(keys: Seq<Seq<char>>, values: Seq<V>) -> Map<Seq<char>, V> {
    Map::new(|k: Seq<char>| keys.contains(k), |k: Seq<char>| values[keys.index_of(k)])
}

impl<V> TextMap<V> {
    #[verifier::type_invariant]
    spec fn ordered(&self) -> bool {
        strictly_increasing(entry_keys(self.entries@))
    }

    /// The keys, in order.
    pub closed spec fn key_seq(&self) -> Seq<Seq<char>> {
        entry_keys(self.entries@)
    }

    /// The values, in the order of their keys.
    pub closed spec fn value_seq(&self) -> Seq<V> {
        entry_values(self.entries@)
    }
}

impl<V> View for TextMap<V> {
    type V = Map<Seq<char>, V>;

    open spec fn view(&self) -> Map<Seq<char>, V> {
        zipped(self.key_seq(), self.value_seq())
    }
}

/// No key of an increasing sequence stands at two places.
pub proof fn lemma_increasing_is_injective(keys: Seq<Seq<char>>, i: int, j: int)
    requires
        strictly_increasing(keys),
        0 <= i < keys.len(),
        0 <= j < keys.len(),
        keys[i] == keys[j],
    ensures
        i == j,
{
    lemma_text_lt_irreflexive(keys[i]);
}

/// A map built from increasing keys holds at each key the value that stands at its
/// place.
pub proof fn lemma_zipped_at<V>(keys: Seq<Seq<char>>, values: Seq<V>, i: int)
    requires
        strictly_increasing(keys),
        keys.len() == values.len(),
        0 <= i < keys.len(),
    ensures
        keys.contains(keys[i]),
        keys.index_of(keys[i]) == i,
        zipped(keys, values).contains_key(keys[i]),
        zipped(keys, values)[keys[i]] == values[i],
{
    let k = keys[i];
    assert(keys.contains(k));
    let j = keys.index_of(k);
    assert(0 <= j < keys.len() && keys[j] == k);
    lemma_increasing_is_injective(keys, i, j);
}

/// The texts of a set in order.
pub open spec fn ordered_keys(keys: Set<Seq<char>>) -> Seq<Seq<char>> {
    choose|s: Seq<Seq<char>>| #[trigger] strictly_increasing(s) && s.to_set() == keys
}

/// There is one way to put the texts of a set in order.
pub proof fn lemma_order_is_unique(a: Seq<Seq<char>>, b: Seq<Seq<char>>)
    requires
        strictly_increasing(a),
        strictly_increasing(b),
        a.to_set() == b.to_set(),
    ensures
        a == b,
    decreases a.len(),
{
    if a.len() == 0 {
        if b.len() > 0 {
            assert(b.to_set().contains(b[0]));
            assert(a.contains(b[0]));
        }
        assert(a =~= b);
    } else {
        let x = a.last();
        assert(a[a.len() - 1] == x);
        assert(a.to_set().contains(x));
        assert(b.contains(x));
        let j = b.index_of(x);
        let y = b.last();
        assert(b[b.len() - 1] == y);
        assert(b.to_set().contains(y));
        assert(a.contains(y));
        let i = a.index_of(y);
        if j < b.len() - 1 {
            assert(text_lt(b[j], b[b.len() - 1]));
            if i < a.len() - 1 {
                assert(text_lt(a[i], a[a.len() - 1]));
                lemma_text_lt_asymmetric(x, y);
            } else {
                lemma_text_lt_irreflexive(x);
            }
        }
        assert(x == y);
        let a1 = a.drop_last();
        let b1 = b.drop_last();
        lemma_drop_last_set(a);
        lemma_drop_last_set(b);
        assert(a1.to_set() =~= b1.to_set());
        assert forall|p: int, q: int| 0 <= p < q < a1.len() implies text_lt(
            #[trigger] a1[p],
            #[trigger] a1[q],
        ) by {
            assert(a1[p] == a[p] && a1[q] == a[q]);
        }
        assert forall|p: int, q: int| 0 <= p < q < b1.len() implies text_lt(
            #[trigger] b1[p],
            #[trigger] b1[q],
        ) by {
            assert(b1[p] == b[p] && b1[q] == b[q]);
        }
        lemma_order_is_unique(a1, b1);
        assert(a =~= a1.push(x));
        assert(b =~= b1.push(y));
    }
}

proof fn lemma_drop_last_set(a: Seq<Seq<char>>)
    requires
        strictly_increasing(a),
        a.len() > 0,
    ensures
        a.drop_last().to_set() == a.to_set().remove(a.last()),
{
    let a1 = a.drop_last();
    assert forall|k: Seq<char>| a1.to_set().contains(k) == #[trigger] a.to_set().remove(
        a.last(),
    ).contains(k) by {
        if a1.contains(k) {
            let i = a1.index_of(k);
            assert(a[i] == k);
            if k == a.last() {
                lemma_increasing_is_injective(a, i, a.len() - 1);
            }
        } else if a.contains(k) && k != a.last() {
            let i = a.index_of(k);
            assert(a1[i] == k);
        }
    }
    assert(a1.to_set() =~= a.to_set().remove(a.last()));
}

/// The texts of a finite set can be put in order.
pub proof fn lemma_finite_sets_have_an_order(keys: Set<Seq<char>>)
    requires
        keys.finite(),
    ensures
        strictly_increasing(ordered_keys(keys)),
        ordered_keys(keys).to_set() == keys,
    decreases keys.len(),
{
    if keys.len() == 0 {
        let s = Seq::<Seq<char>>::empty();
        assert(s.to_set() =~= keys);
        assert(strictly_increasing(s) && s.to_set() == keys);
    } else {
        let k = keys.choose();
        let rest = keys.remove(k);
        lemma_finite_sets_have_an_order(rest);
        let s = ordered_keys(rest);
        assert(!s.contains(k)) by {
            if s.contains(k) {
                assert(s.to_set().contains(k));
            }
        }
        let at = place_of(s, k, 0);
        lemma_place_of(s, k, 0);
        let values = Seq::new(s.len(), |i: int| 0int);
        lemma_insert_key(s, values, at, k, 0int);
        let t = s.insert(at, k);
        assert forall|x: Seq<char>| t.to_set().contains(x) == #[trigger] keys.contains(x) by {
            if t.contains(x) {
                let i = t.index_of(x);
                if i < at {
                    assert(s[i] == x);
                    assert(s.to_set().contains(x));
                } else if i > at {
                    assert(s[i - 1] == x);
                    assert(s.to_set().contains(x));
                }
            }
            if x == k {
                assert(t[at] == x);
            } else if keys.contains(x) {
                assert(s.to_set().contains(x));
                let i = s.index_of(x);
                if i < at {
                    assert(t[i] == x);
                } else {
                    assert(t[i + 1] == x);
                }
            }
        }
        assert(t.to_set() =~= keys);
        assert(strictly_increasing(t) && t.to_set() == keys);
    }
}

/// The first position at or behind `from` whose text does not come before `k`.
spec fn place_of(s: Seq<Seq<char>>, k: Seq<char>, from: int) -> int
    decreases s.len() - from,
{
    if 0 <= from < s.len() && text_lt(s[from], k) {
        place_of(s, k, from + 1)
    } else {
        from
    }
}

proof fn lemma_place_of(s: Seq<Seq<char>>, k: Seq<char>, from: int)
    requires
        0 <= from <= s.len(),
        forall|j: int| 0 <= j < from ==> text_lt(#[trigger] s[j], k),
        !s.contains(k),
    ensures
        from <= place_of(s, k, from) <= s.len(),
        forall|j: int| 0 <= j < place_of(s, k, from) ==> text_lt(#[trigger] s[j], k),
        place_of(s, k, from) < s.len() ==> text_lt(k, s[place_of(s, k, from)]),
    decreases s.len() - from,
{
    if from < s.len() {
        lemma_text_lt_total(s[from], k);
        assert(s.contains(s[from]));
        if text_lt(s[from], k) {
            lemma_place_of(s, k, from + 1);
        }
    }
}

/// Increasing texts are the ordered ones of their set.
pub proof fn lemma_ordered_keys(s: Seq<Seq<char>>, keys: Set<Seq<char>>)
    requires
        strictly_increasing(s),
        s.to_set() == keys,
    ensures
        ordered_keys(keys) == s,
{
    assert(strictly_increasing(s) && s.to_set() == keys);
    lemma_order_is_unique(ordered_keys(keys), s);
}

proof fn lemma_insert_key<V>(keys: Seq<Seq<char>>, values: Seq<V>, i: int, k: Seq<char>, v: V)
    requires
        strictly_increasing(keys),
        keys.len() == values.len(),
        0 <= i <= keys.len(),
        forall|j: int| 0 <= j < i ==> text_lt(#[trigger] keys[j], k),
        i < keys.len() ==> text_lt(k, keys[i]),
    ensures
        strictly_increasing(keys.insert(i, k)),
        zipped(keys.insert(i, k), values.insert(i, v)) == zipped(keys, values).insert(k, v),
        !zipped(keys, values).contains_key(k),
{
    let keys2 = keys.insert(i, k);
    let values2 = values.insert(i, v);
    assert forall|j: int| i <= j < keys.len() implies text_lt(k, #[trigger] keys[j]) by {
        if j > i {
            lemma_text_lt_transitive(k, keys[i], keys[j]);
        }
    }
    assert forall|a: int, b: int| 0 <= a < b < keys2.len() implies text_lt(
        #[trigger] keys2[a],
        #[trigger] keys2[b],
    ) by {
        let a1 = if a < i {
            a
        } else {
            a - 1
        };
        let b1 = if b < i {
            b
        } else {
            b - 1
        };
        if a != i {
            assert(keys2[a] == keys[a1]);
        }
        if b != i {
            assert(keys2[b] == keys[b1]);
        }
    }
    let m = zipped(keys, values);
    let m2 = zipped(keys2, values2);
    if m.contains_key(k) {
        let j = keys.index_of(k);
        assert(keys[j] == k);
        lemma_text_lt_irreflexive(k);
    }
    assert forall|x: Seq<char>| #[trigger] m2.contains_key(x) == m.insert(k, v).contains_key(x) by {
        if m2.contains_key(x) {
            let j = keys2.index_of(x);
            assert(keys2[j] == x);
            if j < i {
                assert(keys[j] == x);
            } else if j > i {
                assert(keys[j - 1] == x);
            }
        }
        if x == k {
            assert(keys2[i] == k);
        } else if m.contains_key(x) {
            let j = keys.index_of(x);
            assert(keys[j] == x);
            if j < i {
                assert(keys2[j] == x);
            } else {
                assert(keys2[j + 1] == x);
            }
        }
    }
    assert forall|x: Seq<char>| #[trigger] m2.contains_key(x) implies m2[x] == m.insert(
        k,
        v,
    )[x] by {
        let j = keys2.index_of(x);
        assert(keys2[j] == x);
        lemma_zipped_at(keys2, values2, j);
        if j < i {
            assert(keys[j] == x);
            lemma_zipped_at(keys, values, j);
        } else if j > i {
            assert(keys[j - 1] == x);
            lemma_zipped_at(keys, values, j - 1);
        }
        if x == k {
            assert(keys2[i] == k);
            lemma_increasing_is_injective(keys2, i, j);
        }
    }
    assert(m2 =~= m.insert(k, v));
}

proof fn lemma_update_value<V>(keys: Seq<Seq<char>>, values: Seq<V>, i: int, v: V)
    requires
        strictly_increasing(keys),
        keys.len() == values.len(),
        0 <= i < keys.len(),
    ensures
        zipped(keys, values.update(i, v)) == zipped(keys, values).insert(keys[i], v),
        zipped(keys, values).contains_key(keys[i]),
{
    let m = zipped(keys, values);
    let m2 = zipped(keys, values.update(i, v));
    lemma_zipped_at(keys, values, i);
    assert forall|x: Seq<char>| #[trigger] m2.contains_key(x) implies m2[x] == m.insert(
        keys[i],
        v,
    )[x] by {
        let j = keys.index_of(x);
        assert(keys[j] == x);
        lemma_zipped_at(keys, values, j);
        lemma_zipped_at(keys, values.update(i, v), j);
        if x == keys[i] {
            lemma_increasing_is_injective(keys, i, j);
        }
    }
    assert(m2 =~= m.insert(keys[i], v));
}

proof fn lemma_remove_key<V>(keys: Seq<Seq<char>>, values: Seq<V>, i: int)
    requires
        strictly_increasing(keys),
        keys.len() == values.len(),
        0 <= i < keys.len(),
    ensures
        strictly_increasing(keys.remove(i)),
        zipped(keys.remove(i), values.remove(i)) == zipped(keys, values).remove(keys[i]),
{
    let keys2 = keys.remove(i);
    let values2 = values.remove(i);
    assert forall|a: int, b: int| 0 <= a < b < keys2.len() implies text_lt(
        #[trigger] keys2[a],
        #[trigger] keys2[b],
    ) by {
        let a1 = if a < i {
            a
        } else {
            a + 1
        };
        let b1 = if b < i {
            b
        } else {
            b + 1
        };
        assert(keys2[a] == keys[a1]);
        assert(keys2[b] == keys[b1]);
    }
    let m = zipped(keys, values);
    let m2 = zipped(keys2, values2);
    assert forall|x: Seq<char>| #[trigger] m2.contains_key(x) == m.remove(keys[i]).contains_key(
        x,
    ) by {
        if m2.contains_key(x) {
            let j = keys2.index_of(x);
            let j1 = if j < i {
                j
            } else {
                j + 1
            };
            assert(keys2[j] == x);
            assert(keys[j1] == x);
            if x == keys[i] {
                lemma_increasing_is_injective(keys, i, j1);
            }
        } else if m.contains_key(x) && x != keys[i] {
            let j = keys.index_of(x);
            assert(keys[j] == x);
            if j < i {
                assert(keys2[j] == x);
            } else {
                assert(keys2[j - 1] == x);
            }
        }
    }
    assert forall|x: Seq<char>| #[trigger] m2.contains_key(x) implies m2[x] == m.remove(
        keys[i],
    )[x] by {
        let j = keys2.index_of(x);
        let j1 = if j < i {
            j
        } else {
            j + 1
        };
        assert(keys2[j] == x);
        assert(keys[j1] == x);
        lemma_zipped_at(keys2, values2, j);
        lemma_zipped_at(keys, values, j1);
    }
    assert(m2 =~= m.remove(keys[i]));
}

impl<V> TextMap<V> {
    /// A map without entries.
    pub fn new() -> (r: Self)
        ensures
            r@ == Map::<Seq<char>, V>::empty(),
            r.key_seq() == Seq::<Seq<char>>::empty(),
    {
        let r = TextMap { entries: Vec::new() };
        proof {
            assert(r.key_seq() =~= Seq::<Seq<char>>::empty());
            assert(r@ =~= Map::<Seq<char>, V>::empty());
        }
        r
    }

    /// The keys are in order and belong to the map; each position holds a key and
    /// its value.
    pub proof fn lemma_entries(&self)
        requires
            strictly_increasing(self.key_seq()),
        ensures
            self.key_seq().len() == self.value_seq().len(),
            self@.dom() == self.key_seq().to_set(),
            self.key_seq() == ordered_keys(self@.dom()),
            forall|i: int| #![trigger self.key_seq()[i]] #![trigger self.value_seq()[i]]
                0 <= i < self.key_seq().len() ==> self@.contains_key(self.key_seq()[i])
                    && self@[self.key_seq()[i]] == self.value_seq()[i],
    {
        assert forall|i: int| #![trigger self.key_seq()[i]] #![trigger self.value_seq()[i]]
            0 <= i < self.key_seq().len() implies self@.contains_key(self.key_seq()[i])
            && self@[self.key_seq()[i]] == self.value_seq()[i] by {
            lemma_zipped_at(self.key_seq(), self.value_seq(), i);
        }
        assert(self@.dom() =~= self.key_seq().to_set());
        lemma_ordered_keys(self.key_seq(), self@.dom());
    }

    /// A map has finitely many keys.
    pub proof fn lemma_finite(&self)
        ensures
            self@.dom().finite(),
    {
        assert(self@.dom() =~= self.key_seq().to_set());
        vstd::seq_lib::seq_to_set_is_finite(self.key_seq());
    }

    /// A value is part of the map that holds it.
    pub broadcast proof fn lemma_value_is_part(&self, k: Seq<char>)
        requires
            #[trigger] self@.contains_key(k),
        ensures
            decreases_to!(self => self@[k]),
    {
        let i = self.key_seq().index_of(k);
        assert(self.key_seq()[i] == k);
        let e = self.entries@[i];
        assert(self@[k] == e.1);
        assert(decreases_to!(self.entries => e));
    }

    pub fn len(&self) -> (r: usize)
        ensures
            r == self.key_seq().len(),
            r == self.value_seq().len(),
            strictly_increasing(self.key_seq()),
            self.key_seq() == ordered_keys(self@.dom()),
    {
        proof {
            use_type_invariant(self);
            self.lemma_entries();
        }
        self.entries.len()
    }

    pub fn is_empty(&self) -> (r: bool)
        ensures
            r == (self@ == Map::<Seq<char>, V>::empty()),
            r == (self.key_seq().len() == 0),
    {
        proof {
            if self.key_seq().len() > 0 {
                assert(self@.contains_key(self.key_seq()[0]));
            } else {
                assert(self@ =~= Map::<Seq<char>, V>::empty());
            }
        }
        self.entries.len() == 0
    }

    pub fn key_at(&self, i: usize) -> (r: &String)
        requires
            i < self.key_seq().len(),
        ensures
            r@ == self.key_seq()[i as int],
    {
        &self.entries[i].0
    }

    pub fn value_at(&self, i: usize) -> (r: &V)
        requires
            i < self.key_seq().len(),
        ensures
            r == self.value_seq()[i as int],
            self@.contains_key(self.key_seq()[i as int]),
            r == self@[self.key_seq()[i as int]],
    {
        proof {
            use_type_invariant(self);
            lemma_zipped_at(self.key_seq(), self.value_seq(), i as int);
        }
        &self.entries[i].1
    }

    /// Where `key` stands, or where it would be put.
    fn find(&self, key: &str) -> (r: (usize, bool))
        ensures
            r.0 <= self.key_seq().len(),
            r.1 == self@.contains_key(key@),
            r.1 ==> r.0 < self.key_seq().len() && self.key_seq()[r.0 as int] == key@,
            !r.1 ==> (forall|j: int|
                0 <= j < r.0 ==> text_lt(#[trigger] self.key_seq()[j], key@)) && (r.0
                < self.key_seq().len() ==> text_lt(key@, self.key_seq()[r.0 as int])),
    {
        proof {
            use_type_invariant(self);
        }
        let ghost keys = self.key_seq();
        let mut i: usize = 0;
        while i < self.entries.len() && less(self.entries[i].0.as_str(), key)
            invariant
                keys == self.key_seq(),
                strictly_increasing(keys),
                i <= self.entries@.len(),
                keys.len() == self.entries@.len(),
                forall|j: int| 0 <= j < i ==> text_lt(#[trigger] keys[j], key@),
            decreases self.entries@.len() - i,
        {
            i = i + 1;
        }
        if i < self.entries.len() && same(self.entries[i].0.as_str(), key) {
            proof {
                assert(keys[i as int] == key@);
                lemma_zipped_at(keys, self.value_seq(), i as int);
            }
            (i, true)
        } else {
            proof {
                if i < keys.len() {
                    assert(keys[i as int] == self.entries@[i as int].0@);
                }
                if self@.contains_key(key@) {
                    let j = keys.index_of(key@);
                    assert(keys[j] == key@);
                    lemma_text_lt_irreflexive(key@);
                    if j > i {
                        lemma_text_lt_asymmetric(keys[i as int], keys[j]);
                    }
                }
            }
            (i, false)
        }
    }

    pub fn contains(&self, key: &str) -> (r: bool)
        ensures
            r == self@.contains_key(key@),
    {
        self.find(key).1
    }

    /// The value at `key`.
    pub fn get(&self, key: &str) -> (r: Option<&V>)
        ensures
            r is Some == self@.contains_key(key@),
            r matches Some(v) ==> *v == self@[key@],
    {
        let (i, found) = self.find(key);
        if found {
            Some(self.value_at(i))
        } else {
            None
        }
    }

    /// Puts `value` at `key`, in the place of what stood there.
    pub fn insert(&mut self, key: String, value: V)
        ensures
            final(self)@ == old(self)@.insert(key@, value),
    {
        let (i, found) = self.find(key.as_str());
        let ghost keys = self.key_seq();
        let ghost values = self.value_seq();
        let ghost k = key@;
        proof {
            use_type_invariant(&*self);
        }
        let mut entries: Vec<(String, V)> = Vec::new();
        std::mem::swap(&mut self.entries, &mut entries);
        if found {
            proof {
                lemma_update_value(keys, values, i as int, value);
            }
            entries[i] = (key, value);
            proof {
                assert(entry_keys(entries@) =~= keys);
                assert(entry_values(entries@) =~= values.update(i as int, value));
            }
        } else {
            proof {
                lemma_insert_key(keys, values, i as int, k, value);
            }
            entries.insert(i, (key, value));
            proof {
                assert(entry_keys(entries@) =~= keys.insert(i as int, k));
                assert(entry_values(entries@) =~= values.insert(i as int, value));
            }
        }
        self.entries = entries;
    }

    /// The values, in the order of their keys.
    pub fn into_values(self) -> (r: Vec<V>)
        ensures
            r@ == self.value_seq(),
            strictly_increasing(self.key_seq()),
            self.key_seq().len() == self.value_seq().len(),
    {
        proof {
            use_type_invariant(&self);
        }
        let ghost all = self.entries@;
        let mut entries: Vec<(String, V)> = self.entries;
        let mut out: Vec<V> = Vec::new();
        while entries.len() > 0
            invariant
                out@.len() + entries@.len() == all.len(),
                entries@ == all.skip(out@.len() as int),
                out@ == entry_values(all).take(out@.len() as int),
            decreases entries@.len(),
        {
            let ghost n = out@.len() as int;
            let e: (String, V) = entries.remove(0);
            proof {
                assert(e == all[n]);
                assert(entries@ =~= all.skip(n + 1));
                assert(entry_values(all).take(n + 1) =~= entry_values(all).take(n).push(e.1));
            }
            out.push(e.1);
        }
        proof {
            assert(entry_values(all).take(out@.len() as int) =~= entry_values(all));
        }
        out
    }

    /// Takes out what stands at `key`.
    pub fn remove(&mut self, key: &str) -> (r: Option<V>)
        ensures
            final(self)@ == old(self)@.remove(key@),
            r is Some == old(self)@.contains_key(key@),
            r matches Some(v) ==> v == old(self)@[key@],
    {
        let (i, found) = self.find(key);
        let ghost keys = self.key_seq();
        let ghost values = self.value_seq();
        let ghost before = self.entries@;
        proof {
            use_type_invariant(&*self);
        }
        if found {
            proof {
                lemma_zipped_at(keys, values, i as int);
                lemma_remove_key(keys, values, i as int);
                assert(entry_keys(before.remove(i as int)) =~= keys.remove(i as int));
                assert(entry_values(before.remove(i as int)) =~= values.remove(i as int));
            }
            let mut entries: Vec<(String, V)> = Vec::new();
            std::mem::swap(&mut self.entries, &mut entries);
            let e: (String, V) = entries.remove(i);
            self.entries = entries;
            Some(e.1)
        } else {
            proof {
                assert(self@.remove(key@) =~= self@);
            }
            None
        }
    }
}

} // verus!
