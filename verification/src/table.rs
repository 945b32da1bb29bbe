//! The storage table: a map from keys to values, both strings.
//!
//! The entries stand in a vector, each key once, in the order in which the
//! keys first came. An index leads from the FNV-1a hash of a key to the
//! places in the vector of the keys with that hash, so that a lookup
//! compares few keys.

use crate::msgpack::same_text;
use fnv::FnvHasher;
use std::collections::HashMap;
use std::hash::Hasher;
use vstd::prelude::*;
use vstd::utf8::encode_utf8;

verus! {

/// The FNV-1a hash of `bytes`, of 64 bits: from the offset basis, each
/// byte is mixed in by exclusive or, then the hash is multiplied by the
/// FNV prime, modulo 2^64.
pub open spec fn fnv1a(bytes: Seq<u8>) -> u64
    decreases bytes.len(),
{
    if bytes.len() == 0 {
        0xcbf2_9ce4_8422_2325
    } else {
        (((fnv1a(bytes.drop_last()) ^ (bytes.last() as u64)) as int * 0x100_0000_01b3)
            % 0x1_0000_0000_0000_0000) as u64
    }
}

/// The hash under which the index keeps a key.
pub open spec fn hash_of(key: Seq<char>) -> u64 {
    fnv1a(encode_utf8(key))
}

/// The FNV-1a hash of `bytes`.
///
/// Trusted: feeds `bytes` to a fresh `FnvHasher` of the `fnv` crate and
/// takes what it finishes with. The crate starts from the offset basis
/// and, for each byte, takes the exclusive or and multiplies, wrapping, by
/// the prime.
#[verifier::external_body]
fn fnv_hash(bytes: &[u8]) -> (h: u64)
    ensures
        h == fnv1a(bytes@),
{
    let mut hasher = FnvHasher::default();
    hasher.write(bytes);
    hasher.finish()
}

/// The table that a history of puts leaves: of several values for one
/// key, the last one stands.
pub open spec fn table_of(puts: Seq<(Seq<char>, Seq<char>)>) -> Map<Seq<char>, Seq<char>>
    decreases puts.len(),
{
    if puts.len() == 0 {
        Map::empty()
    } else {
        table_of(puts.drop_last()).insert(puts.last().0, puts.last().1)
    }
}

/// The entries as mathematics.
spec fn texts(entries: Seq<(String, String)>) -> Seq<(Seq<char>, Seq<char>)> {
    Seq::new(entries.len(), |i: int| (entries[i].0@, entries[i].1@))
}

/// Whether no key comes twice.
pub open spec fn distinct_keys(pairs: Seq<(Seq<char>, Seq<char>)>) -> bool {
    forall|p: int, q: int| 0 <= p < q < pairs.len() ==> pairs[p].0 != pairs[q].0
}

/// Whether the index knows the place `p`: it is listed under the hash of
/// the key that stands there.
spec fn indexed(
    entries: Seq<(String, String)>,
    index: Map<u64, Vec<usize>>,
    p: int,
) -> bool {
    let h = hash_of(entries[p].0@);
    index.contains_key(h) && exists|i: int|
        0 <= i < index[h]@.len() && (#[trigger] index[h]@[i]) as int == p
}

/// Whether what the index lists at `i` under the hash `h` is a place
/// whose key has that hash.
spec fn placed(
    entries: Seq<(String, String)>,
    index: Map<u64, Vec<usize>>,
    h: u64,
    i: int,
) -> bool {
    let p = index[h]@[i];
    p < entries.len() && hash_of(entries[p as int].0@) == h
}

/// A table of strings.
pub struct Table {
    /// The entries, each key once.
    entries: Vec<(String, String)>,
    /// From the hash of a key to the places of the keys with that hash.
    index: HashMap<u64, Vec<usize>>,
}

impl View for Table {
    type V = Map<Seq<char>, Seq<char>>;

    closed spec fn view(&self) -> Map<Seq<char>, Seq<char>> {
        table_of(texts(self.entries@))
    }
}

/// A table of distinct keys has what its entries say.
pub proof fn lemma_table_of(pairs: Seq<(Seq<char>, Seq<char>)>)
    requires
        distinct_keys(pairs),
    ensures
        forall|p: int| 0 <= p < pairs.len() ==> #[trigger] table_of(pairs).contains_pair(
            pairs[p].0,
            pairs[p].1,
        ),
        forall|k: Seq<char>| #[trigger]
            table_of(pairs).contains_key(k) ==> exists|p: int|
                0 <= p < pairs.len() && #[trigger] pairs[p].0 == k,
        table_of(pairs).dom().finite(),
        table_of(pairs).dom().len() == pairs.len(),
    decreases pairs.len(),
{
    if pairs.len() > 0 {
        let before = pairs.drop_last();
        lemma_table_of(before);
        let t = table_of(pairs);
        let k0 = pairs.last().0;
        assert(!table_of(before).contains_key(k0)) by {
            if table_of(before).contains_key(k0) {
                let p = choose|p: int| 0 <= p < before.len() && #[trigger] before[p].0 == k0;
                assert(pairs[p].0 == pairs[pairs.len() - 1].0);
            }
        }
        assert forall|p: int| 0 <= p < pairs.len() implies #[trigger] t.contains_pair(
            pairs[p].0,
            pairs[p].1,
        ) by {
            if p < before.len() {
                assert(table_of(before).contains_pair(before[p].0, before[p].1));
            }
        }
        assert forall|k: Seq<char>| #[trigger] t.contains_key(k) implies exists|p: int|
            0 <= p < pairs.len() && #[trigger] pairs[p].0 == k by {
            if k == k0 {
                assert(pairs[pairs.len() - 1].0 == k);
            } else {
                assert(table_of(before).contains_key(k));
                let p = choose|p: int| 0 <= p < before.len() && #[trigger] before[p].0 == k;
                assert(pairs[p].0 == k);
            }
        }
    }
}

/// The place of `key` among the entries, if it has one.
pub open spec fn place_of(pairs: Seq<(Seq<char>, Seq<char>)>, key: Seq<char>) -> Option<int> {
    if exists|p: int| 0 <= p < pairs.len() && (#[trigger] pairs[p]).0 == key {
        Some(choose|p: int| 0 <= p < pairs.len() && (#[trigger] pairs[p]).0 == key)
    } else {
        None
    }
}

/// The entries after a put: a key that is there keeps its place and
/// takes the value, a new key goes behind the last entry.
pub open spec fn entries_after_put(
    pairs: Seq<(Seq<char>, Seq<char>)>,
    key: Seq<char>,
    value: Seq<char>,
) -> Seq<(Seq<char>, Seq<char>)> {
    match place_of(pairs, key) {
        Some(p) => pairs.update(p, (key, value)),
        None => pairs.push((key, value)),
    }
}

/// The entries that a history of puts leaves, from an empty table.
pub open spec fn entries_of(puts: Seq<(Seq<char>, Seq<char>)>) -> Seq<(Seq<char>, Seq<char>)>
    decreases puts.len(),
{
    if puts.len() == 0 {
        Seq::empty()
    } else {
        entries_after_put(entries_of(puts.drop_last()), puts.last().0, puts.last().1)
    }
}

/// Puts of keys that are all different leave one entry each, in the
/// order of the puts.
pub proof fn lemma_entries_of_distinct(puts: Seq<(Seq<char>, Seq<char>)>)
    requires
        distinct_keys(puts),
    ensures
        entries_of(puts) == puts,
    decreases puts.len(),
{
    if puts.len() > 0 {
        let before = puts.drop_last();
        lemma_entries_of_distinct(before);
        assert(place_of(before, puts.last().0) is None) by {
            if exists|p: int| 0 <= p < before.len() && (#[trigger] before[p]).0 == puts.last().0 {
                let p = choose|p: int|
                    0 <= p < before.len() && (#[trigger] before[p]).0 == puts.last().0;
                assert(puts[p].0 == puts[puts.len() - 1].0);
            }
        }
        assert(before.push(puts.last()) =~= puts);
    } else {
        assert(puts =~= Seq::empty());
    }
}

/// A key that no put named is not in the table.
pub proof fn lemma_never_put(puts: Seq<(Seq<char>, Seq<char>)>, key: Seq<char>)
    requires
        forall|i: int| 0 <= i < puts.len() ==> (#[trigger] puts[i]).0 != key,
    ensures
        !table_of(puts).contains_key(key),
    decreases puts.len(),
{
    if puts.len() > 0 {
        assert(puts[puts.len() - 1].0 != key);
        let before = puts.drop_last();
        assert forall|i: int| 0 <= i < before.len() implies (#[trigger] before[i]).0 != key by {
            assert(puts[i].0 != key);
        }
        lemma_never_put(before, key);
    }
}

/// A table holds nothing that was not put: the value of a key is the
/// value of a put that named the key.
pub proof fn lemma_value_was_put(puts: Seq<(Seq<char>, Seq<char>)>, key: Seq<char>)
    requires
        table_of(puts).contains_key(key),
    ensures
        exists|i: int| 0 <= i < puts.len() && #[trigger] puts[i] == (key, table_of(puts)[key]),
    decreases puts.len(),
{
    if puts.len() > 0 {
        if puts.last().0 == key {
            assert(puts[puts.len() - 1] == (key, table_of(puts)[key]));
        } else {
            let before = puts.drop_last();
            lemma_value_was_put(before, key);
            let i = choose|i: int|
                0 <= i < before.len() && #[trigger] before[i] == (key, table_of(before)[key]);
            assert(puts[i] == (key, table_of(puts)[key]));
        }
    }
}

/// Last writer wins: a key has the value of the last put that named it.
pub proof fn lemma_last_put_stands(puts: Seq<(Seq<char>, Seq<char>)>, i: int)
    requires
        0 <= i < puts.len(),
        forall|j: int| i < j < puts.len() ==> (#[trigger] puts[j]).0 != puts[i].0,
    ensures
        table_of(puts).contains_pair(puts[i].0, puts[i].1),
    decreases puts.len(),
{
    if i < puts.len() - 1 {
        let before = puts.drop_last();
        assert(puts[puts.len() - 1].0 != puts[i].0);
        assert forall|j: int| i < j < before.len() implies (#[trigger] before[j]).0
            != before[i].0 by {
            assert(puts[j].0 != puts[i].0);
        }
        lemma_last_put_stands(before, i);
    }
}

/// A put on one key is not seen on another: whether the other key is
/// there, and with which value, stays as it was.
pub proof fn lemma_put_leaves_others(
    table: Map<Seq<char>, Seq<char>>,
    key: Seq<char>,
    value: Seq<char>,
    other: Seq<char>,
)
    requires
        other != key,
    ensures
        table.insert(key, value).contains_key(other) == table.contains_key(other),
        table.contains_key(other) ==> table.insert(key, value)[other] == table[other],
{
}

/// Two puts on one key leave what the second alone would leave, and the
/// key has the second value.
pub proof fn lemma_put_twice(
    table: Map<Seq<char>, Seq<char>>,
    key: Seq<char>,
    first: Seq<char>,
    second: Seq<char>,
)
    ensures
        table.insert(key, first).insert(key, second) == table.insert(key, second),
        table.insert(key, first).insert(key, second).contains_pair(key, second),
{
    assert(table.insert(key, first).insert(key, second) =~= table.insert(key, second));
}

/// Giving a key that is there a new value changes its entry, and the
/// table as a put does.
pub proof fn lemma_table_update(pairs: Seq<(Seq<char>, Seq<char>)>, p: int, value: Seq<char>)
    requires
        distinct_keys(pairs),
        0 <= p < pairs.len(),
    ensures
        table_of(pairs.update(p, (pairs[p].0, value))) == table_of(pairs).insert(
            pairs[p].0,
            value,
        ),
    decreases pairs.len(),
{
    let key = pairs[p].0;
    let changed = pairs.update(p, (key, value));
    let before = pairs.drop_last();
    if p == pairs.len() - 1 {
        assert(changed.drop_last() =~= before);
        assert(table_of(changed) =~= table_of(pairs).insert(key, value));
    } else {
        assert(changed.drop_last() =~= before.update(p, (before[p].0, value)));
        lemma_table_update(before, p, value);
        assert(pairs.last().0 != key);
        assert(table_of(changed) =~= table_of(pairs).insert(key, value));
    }
}

impl Table {
    /// The entries in the order in which their keys first came.
    pub closed spec fn pairs(&self) -> Seq<(Seq<char>, Seq<char>)> {
        texts(self.entries@)
    }

    /// What the table's functions keep: no key twice, and the index
    /// knows the place of every key.
    #[verifier::type_invariant]
    spec fn wf(&self) -> bool {
        &&& distinct_keys(texts(self.entries@))
        &&& forall|p: int|
            0 <= p < self.entries@.len() ==> #[trigger] indexed(self.entries@, self.index@, p)
        &&& forall|h: u64, i: int|
            self.index@.contains_key(h) && 0 <= i < self.index@[h]@.len() ==> #[trigger] placed(
                self.entries@,
                self.index@,
                h,
                i,
            )
    }

    /// The table is the table of its entries.
    pub proof fn lemma_pairs(&self)
        ensures
            self@ == table_of(self.pairs()),
    {
    }

    /// An empty table.
    pub fn new() -> (t: Table)
        ensures
            t@ == Map::<Seq<char>, Seq<char>>::empty(),
            t.pairs() == Seq::<(Seq<char>, Seq<char>)>::empty(),
    {
        let t = Table { entries: Vec::new(), index: HashMap::new() };
        assert(texts(t.entries@) =~= Seq::empty());
        t
    }

    /// The hash under which the index keeps `key`.
    pub fn key_hash(key: &str) -> (h: u64)
        ensures
            h == hash_of(key@),
    {
        fnv_hash(key.as_bytes())
    }

    /// The number of keys.
    pub fn len(&self) -> (n: usize)
        ensures
            n == self@.dom().len(),
            n == self.pairs().len(),
            distinct_keys(self.pairs()),
    {
        proof {
            use_type_invariant(self);
            lemma_table_of(texts(self.entries@));
        }
        self.entries.len()
    }

    /// The entry at `index`, in the order in which the keys first came:
    /// its key and its value. `None` behind the last entry.
    pub fn entry(&self, index: usize) -> (r: Option<(&str, &str)>)
        ensures
            match r {
                Some((key, value)) => index < self.pairs().len() && (key@, value@)
                    == self.pairs()[index as int],
                None => index >= self.pairs().len(),
            },
    {
        if index < self.entries.len() {
            let e = &self.entries[index];
            Some((e.0.as_str(), e.1.as_str()))
        } else {
            None
        }
    }

    /// The place of `key` among the entries.
    fn find(&self, key: &str, hash: u64) -> (r: Option<usize>)
        requires
            self.wf(),
            hash == hash_of(key@),
        ensures
            match r {
                Some(p) => p < self.entries@.len() && self.entries@[p as int].0@ == key@,
                None => forall|p: int| 0 <= p < self.entries@.len() ==> self.entries@[p].0@ != key@,
            },
    {
        let bucket = match self.index.get(&hash) {
            Some(bucket) => bucket,
            None => {
                assert forall|p: int| 0 <= p < self.entries@.len() implies self.entries@[p].0@
                    != key@ by {
                    assert(indexed(self.entries@, self.index@, p));
                }
                return None;
            },
        };
        assert forall|j: int| 0 <= j < bucket@.len() implies bucket@[j] < self.entries@.len() by {
            assert(placed(self.entries@, self.index@, hash, j));
        }
        let mut i: usize = 0;
        while i < bucket.len()
            invariant
                i <= bucket@.len(),
                self.wf(),
                hash == hash_of(key@),
                self.index@.contains_key(hash),
                self.index@[hash] == *bucket,
                forall|j: int| 0 <= j < bucket@.len() ==> bucket@[j] < self.entries@.len(),
                forall|j: int| 0 <= j < i ==> self.entries@[bucket@[j] as int].0@ != key@,
            decreases bucket@.len() - i,
        {
            let p = bucket[i];
            if same_text(self.entries[p].0.as_str(), key) {
                return Some(p);
            }
            i = i + 1;
        }
        assert forall|p: int| 0 <= p < self.entries@.len() implies self.entries@[p].0@
            != key@ by {
            if self.entries@[p].0@ == key@ {
                assert(indexed(self.entries@, self.index@, p));
                let j = choose|j: int|
                    0 <= j < bucket@.len() && (#[trigger] bucket@[j]) as int == p;
                assert(self.entries@[bucket@[j] as int].0@ != key@);
            }
        }
        None
    }

    /// The value of `key`, or `None` where the table has no such key.
    pub fn get(&self, key: &str) -> (r: Option<String>)
        ensures
            match r {
                Some(value) => self@.contains_key(key@) && self@[key@] == value@,
                None => !self@.contains_key(key@),
            },
    {
        proof {
            use_type_invariant(self);
            lemma_table_of(texts(self.entries@));
        }
        let hash = Table::key_hash(key);
        match self.find(key, hash) {
            Some(p) => {
                let value = self.entries[p].1.clone();
                assert(texts(self.entries@)[p as int].0 == key@);
                assert(self@.contains_pair(
                    texts(self.entries@)[p as int].0,
                    texts(self.entries@)[p as int].1,
                ));
                Some(value)
            },
            None => {
                assert(!self@.contains_key(key@)) by {
                    if self@.contains_key(key@) {
                        let p = choose|p: int|
                            0 <= p < texts(self.entries@).len() && #[trigger] texts(
                                self.entries@,
                            )[p].0 == key@;
                        assert(self.entries@[p].0@ == key@);
                    }
                }
                None
            },
        }
    }

    /// Gives `key` the value `value`, in place of the value it had, if
    /// it had one.
    pub fn put(&mut self, key: String, value: String)
        ensures
            final(self)@ == old(self)@.insert(key@, value@),
            final(self).pairs() == entries_after_put(old(self).pairs(), key@, value@),
    {
        proof {
            use_type_invariant(&*self);
        }
        let hash = Table::key_hash(key.as_str());
        let found = self.find(key.as_str(), hash);
        let mut taken = Table::new();
        std::mem::swap(&mut taken, self);
        let Table { mut entries, mut index } = taken;
        let ghost was = entries@;
        let ghost listing = index@;
        let ghost before = texts(was);
        match found {
            Some(p) => {
                entries[p] = (key, value);
                proof {
                    assert(texts(entries@) =~= before.update(
                        p as int,
                        (before[p as int].0, value@),
                    ));
                    lemma_table_update(before, p as int, value@);
                    assert(before[p as int].0 == key@);
                    let at = place_of(before, key@)->0;
                    assert(at == p) by {
                        if at < p {
                            assert(before[at].0 != before[p as int].0);
                        } else if p < at {
                            assert(before[p as int].0 != before[at].0);
                        }
                    }
                    assert forall|q: int| 0 <= q < entries@.len() implies #[trigger] indexed(
                        entries@,
                        index@,
                        q,
                    ) by {
                        assert(indexed(was, listing, q));
                    }
                    assert forall|h: u64, i: int|
                        index@.contains_key(h) && 0 <= i < index@[h]@.len()
                        implies #[trigger] placed(entries@, index@, h, i) by {
                        assert(placed(was, listing, h, i));
                    }
                }
            },
            None => {
                let p = entries.len();
                let mut bucket = match index.remove(&hash) {
                    Some(bucket) => bucket,
                    None => Vec::new(),
                };
                let ghost listed = bucket@;
                bucket.push(p);
                index.insert(hash, bucket);
                entries.push((key, value));
                proof {
                    assert(texts(entries@) =~= before.push((key@, value@)));
                    assert(texts(entries@).drop_last() =~= before);
                    assert(place_of(before, key@) is None) by {
                        if exists|q: int|
                            0 <= q < before.len() && (#[trigger] before[q]).0 == key@ {
                            let q = choose|q: int|
                                0 <= q < before.len() && (#[trigger] before[q]).0 == key@;
                            assert(was[q].0@ == key@);
                        }
                    }
                    assert(listing.contains_key(hash) ==> listing[hash]@ == listed);
                    assert forall|q: int| 0 <= q < entries@.len() implies #[trigger] indexed(
                        entries@,
                        index@,
                        q,
                    ) by {
                        if q < p {
                            assert(indexed(was, listing, q));
                            assert(entries@[q] == was[q]);
                            let h = hash_of(entries@[q].0@);
                            let i = choose|i: int|
                                0 <= i < listing[h]@.len() && (#[trigger] listing[h]@[i]) as int
                                    == q;
                            assert(index@.contains_key(h));
                            if h == hash {
                                assert(index@[h]@ == listed.push(p));
                                assert(listed[i] as int == q);
                            }
                            assert(index@[h]@[i] as int == q);
                        } else {
                            assert(q == p);
                            assert(entries@[q].0@ == key@);
                            assert(index@[hash]@ == listed.push(p));
                            assert(index@[hash]@[listed.len() as int] as int == q);
                        }
                    }
                    assert forall|h: u64, i: int|
                        index@.contains_key(h) && 0 <= i < index@[h]@.len()
                        implies #[trigger] placed(entries@, index@, h, i) by {
                        if h != hash || i < listed.len() {
                            assert(placed(was, listing, h, i));
                        }
                    }
                }
            },
        }
        *self = Table { entries, index };
    }
}

} // verus!
