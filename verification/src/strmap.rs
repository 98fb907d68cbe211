//! A map from text to text that remembers the order in which its keys arrived.
//!
//! Header, cookie and parameter tables are small; the map keeps its pairs in a
//! vector, no key twice, and walks them to find one.

use crate::text::same_text;
use vstd::prelude::*;

verus! {

/// A key with its value, as text.
pub type Pair = (Seq<char>, Seq<char>);

/// The position of the first `k` in `keys`, or the length of `keys` where there is none.
pub open spec fn key_index(keys: Seq<Seq<char>>, k: Seq<char>) -> int
    decreases keys.len(),
{
    if keys.len() == 0 {
        0
    } else if keys[0] == k {
        0
    } else {
        1 + key_index(keys.drop_first(), k)
    }
}

/// The keys of `pairs`, in order.
pub open spec fn keys_of<V>(pairs: Seq<(Seq<char>, V)>) -> Seq<Seq<char>> {
    Seq::new(pairs.len(), |i: int| pairs[i].0)
}

/// Whether no key stands at two positions.
pub open spec fn distinct(keys: Seq<Seq<char>>) -> bool {
    forall|i: int, j: int| 0 <= i < j < keys.len() ==> keys[i] != keys[j]
}

/// The map that `pairs` stands for: each key with the value of the first pair that holds it.
pub open spec fn to_map<V>(pairs: Seq<(Seq<char>, V)>) -> Map<Seq<char>, V> {
    Map::new(
        |k: Seq<char>| key_index(keys_of(pairs), k) < pairs.len(),
        |k: Seq<char>| pairs[key_index(keys_of(pairs), k)].1,
    )
}

/// `pairs` with `k` set to `v`: in place where `k` is present, at the end where it is not.
pub open spec fn upsert<V>(pairs: Seq<(Seq<char>, V)>, k: Seq<char>, v: V) -> Seq<(Seq<char>, V)> {
    let i = key_index(keys_of(pairs), k);
    if 0 <= i < pairs.len() {
        pairs.update(i, (k, v))
    } else {
        pairs.push((k, v))
    }
}

/// Where the first `k` stands: within bounds it is `k`, and no `k` stands before it.
pub proof fn lemma_key_index(keys: Seq<Seq<char>>, k: Seq<char>)
    ensures
        0 <= key_index(keys, k) <= keys.len(),
        key_index(keys, k) < keys.len() ==> keys[key_index(keys, k)] == k,
        forall|j: int| 0 <= j < key_index(keys, k) ==> keys[j] != k,
    decreases keys.len(),
{
    if keys.len() > 0 && keys[0] != k {
        let t = keys.drop_first();
        lemma_key_index(t, k);
        assert forall|j: int| 0 <= j < key_index(keys, k) implies keys[j] != k by {
            if j > 0 {
                assert(keys[j] == t[j - 1]);
            }
        }
    }
}

/// A position that no `k` precedes, and that holds `k` or is the end, is the key's index.
pub proof fn lemma_key_index_is(keys: Seq<Seq<char>>, k: Seq<char>, n: int)
    requires
        0 <= n <= keys.len(),
        forall|j: int| 0 <= j < n ==> keys[j] != k,
        n < keys.len() ==> keys[n] == k,
    ensures
        key_index(keys, k) == n,
    decreases keys.len(),
{
    if keys.len() > 0 && keys[0] != k {
        let t = keys.drop_first();
        assert forall|j: int| 0 <= j < n - 1 implies t[j] != k by {
            assert(t[j] == keys[j + 1]);
        }
        lemma_key_index_is(t, k, n - 1);
    }
}

/// Setting a key in the pairs sets it in the map they stand for, and keeps the keys distinct.
pub proof fn lemma_upsert<V>(pairs: Seq<(Seq<char>, V)>, k: Seq<char>, v: V)
    ensures
        to_map(upsert(pairs, k, v)) == to_map(pairs).insert(k, v),
        distinct(keys_of(pairs)) ==> distinct(keys_of(upsert(pairs, k, v))),
{
    let keys = keys_of(pairs);
    let after = upsert(pairs, k, v);
    let i = key_index(keys, k);
    lemma_key_index(keys, k);
    if i < pairs.len() {
        assert(keys_of(after) =~= keys);
    } else {
        assert(keys_of(after) =~= keys.push(k));
    }
    assert forall|q: Seq<char>| #[trigger]
        key_index(keys_of(after), q) == (if q == k {
            i
        } else if key_index(keys, q) < pairs.len() {
            key_index(keys, q)
        } else {
            after.len() as int
        }) by {
        lemma_key_index(keys, q);
        if i < pairs.len() {
            if key_index(keys, q) >= pairs.len() {
                lemma_key_index_is(keys, q, pairs.len() as int);
            }
        } else if q == k {
            lemma_key_index_is(keys.push(k), q, i);
        } else if key_index(keys, q) < pairs.len() {
            lemma_key_index_is(keys.push(k), q, key_index(keys, q));
        } else {
            lemma_key_index_is(keys.push(k), q, after.len() as int);
        }
    }
    assert forall|q: Seq<char>| to_map(after).contains_key(q) == to_map(pairs).insert(
        k,
        v,
    ).contains_key(q) by {
        lemma_key_index(keys, q);
    }
    assert forall|q: Seq<char>| to_map(after).contains_key(q) implies to_map(after)[q] == to_map(
        pairs,
    ).insert(k, v)[q] by {
        lemma_key_index(keys, q);
    }
    assert(to_map(after) =~= to_map(pairs).insert(k, v));
}

/// Where the keys are distinct, each pair's key has that pair's value in the map.
pub proof fn lemma_to_map_at<V>(pairs: Seq<(Seq<char>, V)>, i: int)
    requires
        distinct(keys_of(pairs)),
        0 <= i < pairs.len(),
    ensures
        to_map(pairs).contains_key(pairs[i].0),
        to_map(pairs)[pairs[i].0] == pairs[i].1,
{
    let keys = keys_of(pairs);
    lemma_key_index(keys, pairs[i].0);
    let j = key_index(keys, pairs[i].0);
    assert(keys[i] == pairs[i].0);
    if j < i {
        assert(keys[j] != keys[i]);
    }
}

/// A key of the map is the key of one of the pairs.
pub proof fn lemma_to_map_key<V>(pairs: Seq<(Seq<char>, V)>, k: Seq<char>)
    requires
        to_map(pairs).contains_key(k),
    ensures
        0 <= key_index(keys_of(pairs), k) < pairs.len(),
        pairs[key_index(keys_of(pairs), k)].0 == k,
        to_map(pairs)[k] == pairs[key_index(keys_of(pairs), k)].1,
{
    lemma_key_index(keys_of(pairs), k);
}

/// Where the keys are distinct, the map has as many keys as there are pairs.
pub proof fn lemma_to_map_len<V>(pairs: Seq<(Seq<char>, V)>)
    requires
        distinct(keys_of(pairs)),
    ensures
        to_map(pairs).dom().finite(),
        to_map(pairs).dom().len() == pairs.len(),
    decreases pairs.len(),
{
    if pairs.len() == 0 {
        assert(to_map(pairs).dom() =~= Set::<Seq<char>>::empty());
    } else {
        let front = pairs.drop_last();
        let last = pairs.last();
        let n = pairs.len() - 1;
        assert forall|i: int, j: int| 0 <= i < j < front.len() implies keys_of(front)[i]
            != keys_of(front)[j] by {
            assert(keys_of(pairs)[i] != keys_of(pairs)[j]);
        }
        lemma_to_map_len(front);
        assert forall|j: int| 0 <= j < front.len() implies keys_of(front)[j] != last.0 by {
            assert(keys_of(pairs)[j] != keys_of(pairs)[n]);
        }
        lemma_key_index_is(keys_of(front), last.0, n);
        assert(upsert(front, last.0, last.1) =~= pairs);
        lemma_upsert(front, last.0, last.1);
        assert(to_map(pairs).dom() =~= to_map(front).dom().insert(last.0));
        assert(!to_map(front).dom().contains(last.0));
    }
}

/// The pairs gathered from `items` in order, each set over what came before; an
/// item that is `None` adds nothing. Where a key comes twice, its place is the
/// first one's and its value the last one's.
pub open spec fn collect(items: Seq<Option<Pair>>) -> Seq<Pair>
    decreases items.len(),
{
    if items.len() == 0 {
        Seq::empty()
    } else {
        let before = collect(items.drop_last());
        match items.last() {
            Some((k, v)) => upsert(before, k, v),
            None => before,
        }
    }
}

/// What one more item adds to the pairs gathered so far.
pub proof fn lemma_collect_step(items: Seq<Option<Pair>>, n: int)
    requires
        0 <= n < items.len(),
    ensures
        collect(items.take(n + 1)) == (match items[n] {
            Some((k, v)) => upsert(collect(items.take(n)), k, v),
            None => collect(items.take(n)),
        }),
{
    assert(items.take(n + 1).drop_last() =~= items.take(n));
}

/// Whether `item` is a pair with the key `k`.
pub open spec fn holds_key(item: Option<Pair>, k: Seq<char>) -> bool {
    match item {
        Some(p) => p.0 == k,
        None => false,
    }
}

/// The value of `item`, empty where it is `None`.
pub open spec fn value_of(item: Option<Pair>) -> Seq<char> {
    match item {
        Some(p) => p.1,
        None => Seq::empty(),
    }
}

/// Whether `k` is the key of none of the items from position `from` on.
pub open spec fn absent_from(items: Seq<Option<Pair>>, k: Seq<char>, from: int) -> bool {
    forall|j: int| from <= j < items.len() ==> !holds_key(#[trigger] items[j], k)
}

/// The map of the gathered pairs, one item at a time.
proof fn lemma_collect_map(items: Seq<Option<Pair>>)
    requires
        items.len() > 0,
    ensures
        to_map(collect(items)) == (match items.last() {
            Some(p) => to_map(collect(items.drop_last())).insert(p.0, p.1),
            None => to_map(collect(items.drop_last())),
        }),
{
    match items.last() {
        Some((q, v)) => {
            lemma_upsert(collect(items.drop_last()), q, v);
        },
        None => {},
    }
}

/// A key is among the gathered pairs exactly if some item holds it.
pub proof fn lemma_collect_keys(items: Seq<Option<Pair>>, k: Seq<char>)
    ensures
        to_map(collect(items)).contains_key(k) <==> !absent_from(items, k, 0),
    decreases items.len(),
{
    if items.len() == 0 {
        assert(keys_of(collect(items)) =~= Seq::empty());
    } else {
        let front = items.drop_last();
        let n = items.len() - 1;
        lemma_collect_keys(front, k);
        lemma_collect_map(items);
        let m = to_map(collect(items));
        let mf = to_map(collect(front));
        if holds_key(items[n], k) {
            assert(m.contains_key(k));
            assert(!absent_from(items, k, 0));
        } else {
            assert(m.contains_key(k) == mf.contains_key(k));
            if absent_from(front, k, 0) {
                assert forall|j: int| 0 <= j < items.len() implies !holds_key(
                    #[trigger] items[j],
                    k,
                ) by {
                    if j < n {
                        assert(front[j] == items[j]);
                    }
                }
            } else {
                let j = choose|j: int| 0 <= j < front.len() && holds_key(#[trigger] front[j], k);
                assert(items[j] == front[j]);
            }
        }
    }
}

/// The value of a key among the gathered pairs is that of the last item that holds it.
pub proof fn lemma_collect_value(items: Seq<Option<Pair>>, k: Seq<char>, i: int)
    requires
        0 <= i < items.len(),
        holds_key(items[i], k),
        absent_from(items, k, i + 1),
    ensures
        to_map(collect(items)).contains_key(k),
        to_map(collect(items))[k] == value_of(items[i]),
    decreases items.len(),
{
    let front = items.drop_last();
    let n = items.len() - 1;
    lemma_collect_map(items);
    if i < n {
        assert(front[i] == items[i]);
        assert forall|j: int| i + 1 <= j < front.len() implies !holds_key(
            #[trigger] front[j],
            k,
        ) by {
            assert(front[j] == items[j]);
        }
        lemma_collect_value(front, k, i);
        assert(!holds_key(items[n], k));
    }
}

/// A map from text to text. It holds each key once and keeps the keys in the
/// order in which they were first set.
#[derive(Debug)]
pub struct StrMap {
    entries: Vec<(String, String)>,
}

impl Clone for StrMap {
    /// A copy of the map, with the same pairs in the same order.
    fn clone(&self) -> (m: StrMap)
        ensures
            m.pairs() == self.pairs(),
    {
        proof {
            use_type_invariant(self);
        }
        let mut entries: Vec<(String, String)> = Vec::new();
        let mut i: usize = 0;
        while i < self.entries.len()
            invariant
                i <= self.entries.len(),
                entries@.len() == i,
                forall|j: int|
                    0 <= j < i ==> (#[trigger] entries@[j]).0@ == self.entries@[j].0@
                        && entries@[j].1@ == self.entries@[j].1@,
            decreases self.entries.len() - i,
        {
            entries.push((self.entries[i].0.clone(), self.entries[i].1.clone()));
            i += 1;
        }
        let ghost copy = Seq::new(entries@.len(), |j: int| (entries@[j].0@, entries@[j].1@));
        assert(copy =~= self.pairs());
        StrMap { entries }
    }
}

impl View for StrMap {
    type V = Map<Seq<char>, Seq<char>>;

    open spec fn view(&self) -> Map<Seq<char>, Seq<char>> {
        to_map(self.pairs())
    }
}

impl StrMap {
    /// The pairs of the map as text, in the order in which their keys were first set.
    pub closed spec fn pairs(&self) -> Seq<Pair> {
        Seq::new(self.entries@.len(), |i: int| (self.entries@[i].0@, self.entries@[i].1@))
    }

    #[verifier::type_invariant]
    spec fn keys_are_distinct(&self) -> bool {
        distinct(keys_of(self.pairs()))
    }

    /// The empty map.
    pub fn new() -> (m: StrMap)
        ensures
            m.pairs() == Seq::<Pair>::empty(),
            m@ == Map::<Seq<char>, Seq<char>>::empty(),
    {
        let m = StrMap { entries: Vec::new() };
        assert(m.pairs() =~= Seq::<Pair>::empty());
        assert(m@ =~= Map::<Seq<char>, Seq<char>>::empty());
        m
    }

    /// How many keys the map holds.
    pub fn len(&self) -> (n: usize)
        ensures
            n == self.pairs().len(),
            n == self@.len(),
            self@.dom().finite(),
            distinct(keys_of(self.pairs())),
    {
        proof {
            use_type_invariant(self);
            lemma_to_map_len(self.pairs());
        }
        self.entries.len()
    }

    /// Whether the map holds no key.
    pub fn is_empty(&self) -> (r: bool)
        ensures
            r == (self.pairs().len() == 0),
            r == (self@ == Map::<Seq<char>, Seq<char>>::empty()),
    {
        proof {
            if self.pairs().len() == 0 {
                assert(self@ =~= Map::<Seq<char>, Seq<char>>::empty());
            } else {
                let k = self.pairs()[0].0;
                lemma_key_index_is(keys_of(self.pairs()), k, 0);
                assert(self@.contains_key(k));
            }
        }
        self.entries.len() == 0
    }

    /// The key at position `i`.
    pub fn key_at(&self, i: usize) -> (k: &String)
        requires
            i < self.pairs().len(),
        ensures
            k@ == self.pairs()[i as int].0,
    {
        &self.entries[i].0
    }

    /// The value at position `i`.
    pub fn value_at(&self, i: usize) -> (v: &String)
        requires
            i < self.pairs().len(),
        ensures
            v@ == self.pairs()[i as int].1,
    {
        &self.entries[i].1
    }

    fn position(&self, key: &str) -> (i: usize)
        ensures
            i == key_index(keys_of(self.pairs()), key@),
            i <= self.pairs().len(),
    {
        let mut i: usize = 0;
        while i < self.entries.len()
            invariant
                i <= self.entries.len(),
                forall|j: int| 0 <= j < i ==> keys_of(self.pairs())[j] != key@,
            decreases self.entries.len() - i,
        {
            if same_text(self.entries[i].0.as_str(), key) {
                proof {
                    lemma_key_index_is(keys_of(self.pairs()), key@, i as int);
                }
                return i;
            }
            i += 1;
        }
        proof {
            lemma_key_index_is(keys_of(self.pairs()), key@, i as int);
        }
        i
    }

    /// Whether the map holds `key`.
    pub fn contains_key(&self, key: &str) -> (r: bool)
        ensures
            r == self@.contains_key(key@),
    {
        self.position(key) < self.entries.len()
    }

    /// The value of `key`, if the map holds it.
    pub fn get(&self, key: &str) -> (r: Option<&String>)
        ensures
            match r {
                Some(v) => self@.contains_key(key@) && v@ == self@[key@],
                None => !self@.contains_key(key@),
            },
    {
        let i = self.position(key);
        if i < self.entries.len() {
            Some(&self.entries[i].1)
        } else {
            None
        }
    }

    /// Sets `key` to `value`. A key that is present keeps its place; a new one goes to the end.
    pub fn insert(&mut self, key: String, value: String)
        ensures
            final(self).pairs() == upsert(old(self).pairs(), key@, value@),
            final(self)@ == old(self)@.insert(key@, value@),
    {
        proof {
            use_type_invariant(&*self);
            lemma_upsert(self.pairs(), key@, value@);
        }
        let ghost before = self.pairs();
        let i = self.position(key.as_str());
        let mut entries: Vec<(String, String)> = Vec::new();
        std::mem::swap(&mut entries, &mut self.entries);
        if i < entries.len() {
            entries.set(i, (key, value));
        } else {
            entries.push((key, value));
        }
        let ghost after = Seq::new(entries@.len(), |j: int| (entries@[j].0@, entries@[j].1@));
        assert(after =~= upsert(before, key@, value@));
        self.entries = entries;
        assert(self.pairs() =~= after);
    }
}

} // verus!
