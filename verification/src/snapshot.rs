//! Snapshots of the table: the whole table as one MessagePack map from
//! keys to values, and its recovery from such bytes.
//!
//! A snapshot lists the entries in the order in which their keys first
//! came. Recovery takes the first element of the bytes and ignores what
//! follows; where a key comes twice, its last value stands.

use crate::error::Error;
use crate::msgpack::{
    announced, header, lemma_announced_header, lemma_parse_packed_text, packed_text, parse_text,
    put_header, put_text, take_header, take_text, Kind, MAX_LEN,
};
use crate::table::{distinct_keys, entries_of, lemma_entries_of_distinct, table_of, Table};
use vstd::prelude::*;
use vstd::utf8::encode_utf8;

verus! {

/// The entries as string elements, key then value, one entry after the
/// other.
pub open spec fn packed_pairs(pairs: Seq<(Seq<char>, Seq<char>)>) -> Seq<u8>
    decreases pairs.len(),
{
    if pairs.len() == 0 {
        Seq::empty()
    } else {
        packed_pairs(pairs.drop_last()) + packed_text(pairs.last().0) + packed_text(
            pairs.last().1,
        )
    }
}

/// The snapshot of a table with these entries: a map header with their
/// number, then the entries.
pub open spec fn snapshot_of(pairs: Seq<(Seq<char>, Seq<char>)>) -> Seq<u8> {
    header(Kind::Assoc, pairs.len()) + packed_pairs(pairs)
}

/// Whether a snapshot can hold these entries: their number and the
/// length in bytes of every key and value are within what a header can
/// announce.
pub open spec fn storable(pairs: Seq<(Seq<char>, Seq<char>)>) -> bool {
    &&& pairs.len() <= MAX_LEN
    &&& forall|i: int|
        0 <= i < pairs.len() ==> encode_utf8((#[trigger] pairs[i]).0).len() <= MAX_LEN
            && encode_utf8(pairs[i].1).len() <= MAX_LEN
}

/// The first `count` entries that `b` begins with, and the number of
/// bytes they take. `None` where `b` does not begin with that many
/// entries.
pub open spec fn parse_pairs(b: Seq<u8>, count: nat) -> Option<(Seq<(Seq<char>, Seq<char>)>, nat)>
    decreases count,
{
    if count == 0 {
        Some((Seq::empty(), 0))
    } else {
        match parse_pairs(b, (count - 1) as nat) {
            Some((pairs, used)) => match parse_text(b.skip(used as int)) {
                Some((key, k)) => match parse_text(b.skip((used + k) as int)) {
                    Some((value, v)) => Some((pairs.push((key, value)), used + k + v)),
                    None => None,
                },
                None => None,
            },
            None => None,
        }
    }
}

/// The entries of the snapshot that `b` begins with, in order. `None`
/// where `b` does not begin with a snapshot.
pub open spec fn parse_snapshot(b: Seq<u8>) -> Option<Seq<(Seq<char>, Seq<char>)>> {
    match announced(b, Kind::Assoc) {
        Some((count, size)) => match parse_pairs(b.skip(size as int), count) {
            Some((pairs, _)) => Some(pairs),
            None => None,
        },
        None => None,
    }
}

/// Where fewer entries cannot be read, more cannot either.
pub proof fn lemma_parse_pairs_stops(b: Seq<u8>, fewer: nat, count: nat)
    requires
        fewer <= count,
        parse_pairs(b, fewer) is None,
    ensures
        parse_pairs(b, count) is None,
    decreases count,
{
    if fewer < count {
        lemma_parse_pairs_stops(b, fewer, (count - 1) as nat);
    }
}

/// Reading back the entries that were written gives the entries,
/// whatever follows them.
pub proof fn lemma_parse_packed_pairs(pairs: Seq<(Seq<char>, Seq<char>)>, rest: Seq<u8>)
    requires
        storable(pairs),
    ensures
        parse_pairs(packed_pairs(pairs) + rest, pairs.len()) == Some(
            (pairs, packed_pairs(pairs).len()),
        ),
    decreases pairs.len(),
{
    if pairs.len() > 0 {
        let before = pairs.drop_last();
        let key = packed_text(pairs.last().0);
        let value = packed_text(pairs.last().1);
        let b = packed_pairs(pairs) + rest;
        assert(storable(before)) by {
            assert forall|i: int| 0 <= i < before.len() implies encode_utf8(
                (#[trigger] before[i]).0,
            ).len() <= MAX_LEN && encode_utf8(before[i].1).len() <= MAX_LEN by {
                assert(before[i] == pairs[i]);
            }
        }
        assert(b =~= packed_pairs(before) + (key + value + rest));
        lemma_parse_packed_pairs(before, key + value + rest);
        let used = packed_pairs(before).len();
        assert(b.skip(used as int) =~= key + (value + rest));
        assert(pairs[pairs.len() - 1] == pairs.last());
        lemma_parse_packed_text(pairs.last().0, value + rest);
        assert(b.skip((used + key.len()) as int) =~= value + rest);
        lemma_parse_packed_text(pairs.last().1, rest);
        assert(before.push((pairs.last().0, pairs.last().1)) =~= pairs);
    } else {
        assert(pairs =~= Seq::empty());
    }
}

/// Round trip: the entries of a snapshot are read back from it, whatever
/// follows it.
pub proof fn lemma_parse_snapshot(pairs: Seq<(Seq<char>, Seq<char>)>, rest: Seq<u8>)
    requires
        storable(pairs),
    ensures
        parse_snapshot(snapshot_of(pairs) + rest) == Some(pairs),
{
    let h = header(Kind::Assoc, pairs.len());
    let b = snapshot_of(pairs) + rest;
    assert(b =~= h + (packed_pairs(pairs) + rest));
    lemma_announced_header(Kind::Assoc, pairs.len(), packed_pairs(pairs) + rest);
    assert(b.skip(h.len() as int) =~= packed_pairs(pairs) + rest);
    lemma_parse_packed_pairs(pairs, rest);
}

/// Recovery: what is read back from the snapshot of a table, whatever
/// follows the snapshot, makes that table again, with its entries in
/// their order.
pub proof fn lemma_recovery(table: Table, rest: Seq<u8>)
    requires
        storable(table.pairs()),
        distinct_keys(table.pairs()),
    ensures
        parse_snapshot(snapshot_of(table.pairs()) + rest) == Some(table.pairs()),
        table_of(table.pairs()) == table@,
        entries_of(table.pairs()) == table.pairs(),
{
    lemma_parse_snapshot(table.pairs(), rest);
    table.lemma_pairs();
    lemma_entries_of_distinct(table.pairs());
}

impl Table {
    /// The snapshot of the table. Fails, with `Error::Encode`, exactly
    /// when no snapshot can hold the table.
    pub fn snapshot(&self) -> (r: Result<Vec<u8>, Error>)
        ensures
            match r {
                Ok(bytes) => storable(self.pairs()) && bytes@ == snapshot_of(self.pairs()),
                Err(e) => e == Error::Encode && !storable(self.pairs()),
            },
    {
        let n = self.len();
        if n > MAX_LEN {
            return Err(Error::Encode);
        }
        let ghost pairs = self.pairs();
        let mut out: Vec<u8> = Vec::new();
        put_header(&mut out, Kind::Assoc, n);
        assert(pairs.take(0) =~= Seq::empty());
        let mut i: usize = 0;
        while i < n
            invariant
                i <= n == pairs.len(),
                n <= MAX_LEN,
                pairs == self.pairs(),
                storable(pairs.take(i as int)),
                out@ == header(Kind::Assoc, n as nat) + packed_pairs(pairs.take(i as int)),
            decreases n - i,
        {
            let (key, value) = match self.entry(i) {
                Some(e) => e,
                None => {
                    return Err(Error::Encode);
                },
            };
            if key.as_bytes().len() > MAX_LEN || value.as_bytes().len() > MAX_LEN {
                return Err(Error::Encode);
            }
            put_text(&mut out, key);
            put_text(&mut out, value);
            proof {
                let seen = pairs.take(i + 1);
                assert(seen.drop_last() =~= pairs.take(i as int));
                assert(seen.last() == pairs[i as int]);
                assert(out@ =~= header(Kind::Assoc, n as nat) + packed_pairs(seen));
                assert forall|j: int| 0 <= j < seen.len() implies encode_utf8(
                    (#[trigger] seen[j]).0,
                ).len() <= MAX_LEN && encode_utf8(seen[j].1).len() <= MAX_LEN by {
                    if j < i {
                        assert(pairs.take(i as int)[j] == seen[j]);
                    }
                }
            }
            i = i + 1;
        }
        assert(pairs.take(n as int) =~= pairs);
        Ok(out)
    }

    /// The table of the snapshot that `bytes` begin with. Fails, with
    /// `Error::Decode`, exactly when `bytes` do not begin with a snapshot.
    pub fn restore(bytes: &[u8]) -> (r: Result<Table, Error>)
        ensures
            match r {
                Ok(table) => parse_snapshot(bytes@) matches Some(pairs) && table@ == table_of(
                    pairs,
                ) && table.pairs() == entries_of(pairs),
                Err(e) => e == Error::Decode && parse_snapshot(bytes@) is None,
            },
    {
        assert(bytes@.skip(0) =~= bytes@);
        let (count, start) = match take_header(bytes, 0, Kind::Assoc) {
            Some(h) => h,
            None => {
                return Err(Error::Decode);
            },
        };
        let ghost body = bytes@.skip(start as int);
        let mut table = Table::new();
        let mut pos: usize = start;
        let mut i: usize = 0;
        let ghost mut read: Seq<(Seq<char>, Seq<char>)> = Seq::empty();
        while i < count
            invariant
                i <= count,
                start <= pos <= bytes@.len(),
                announced(bytes@, Kind::Assoc) == Some((count as nat, start as nat)),
                body == bytes@.skip(start as int),
                table@ == table_of(read),
                table.pairs() == entries_of(read),
                parse_pairs(body, i as nat) == Some((read, (pos - start) as nat)),
            decreases count - i,
        {
            assert(body.skip(pos - start) =~= bytes@.skip(pos as int));
            let (key, at_value) = match take_text(bytes, pos) {
                Some(t) => t,
                None => {
                    proof {
                        assert(parse_pairs(body, (i + 1) as nat) is None);
                        lemma_parse_pairs_stops(body, (i + 1) as nat, count as nat);
                    }
                    return Err(Error::Decode);
                },
            };
            assert(body.skip(at_value - start) =~= bytes@.skip(at_value as int));
            let (value, next) = match take_text(bytes, at_value) {
                Some(t) => t,
                None => {
                    proof {
                        assert(parse_pairs(body, (i + 1) as nat) is None);
                        lemma_parse_pairs_stops(body, (i + 1) as nat, count as nat);
                    }
                    return Err(Error::Decode);
                },
            };
            proof {
                assert(read.push((key@, value@)).drop_last() =~= read);
                read = read.push((key@, value@));
            }
            table.put(key, value);
            pos = next;
            i = i + 1;
        }
        Ok(table)
    }
}

} // verus!
