use vstd::prelude::*;
use vstd::std_specs::hash::{builds_valid_hashers, into_iter, obeys_key_model, spec_hash_map_iter};
use vstd::std_specs::iter::VerusForLoopWrapper;
use std::collections::HashMap;
use std::collections::hash_map::RandomState;
use std::hash::Hash;
use crate::codec::CerealData;
use crate::error::{CerealError, CerealResult};
use crate::sequence::{after_items, all_well_formed, parse_items, wire_items};
use crate::source::Source;
use crate::wire::{parse_count, read_count, wire_count};

verus! {

/// Keys with equal models are equal: the model of a key names the key.
pub open spec fn keys_tell_apart<K: CerealData>() -> bool {
    forall|a: K, b: K| a.model() == b.model() ==> a == b
}

/// Whether a `HashMap` keyed by `K` behaves as a map from keys to values.
pub open spec fn keys_are_sound<K: CerealData>() -> bool {
    obeys_key_model::<K>() && builds_valid_hashers::<RandomState>() && keys_tell_apart::<K>()
}

/// The map from the model of each key of `entries` to the model of its value.
pub open spec fn table_model<K: CerealData, V: CerealData>(entries: Map<K, V>) -> Map<
    K::Model,
    V::Model,
> {
    Map::new(
        |key: K::Model| exists|k: K| entries.contains_key(k) && k.model() == key,
        |key: K::Model|
            entries[choose|k: K| entries.contains_key(k) && k.model() == key].model(),
    )
}

/// The map that holds `entries`, a later entry replacing an earlier one of the same key.
pub open spec fn table_of<K, V>(entries: Seq<(K, V)>) -> Map<K, V>
    decreases entries.len(),
{
    if entries.len() == 0 {
        Map::empty()
    } else {
        table_of(entries.drop_last()).insert(entries.last().0, entries.last().1)
    }
}

/// The entries of `table` in the order in which it hands them out.
pub open spec fn entries_of<K, V>(table: &HashMap<K, V>) -> Seq<(K, V)> {
    into_iter(spec_hash_map_iter(table))
}

/// Whether `entries` are the entries of `table`: as many as it holds, and each of them.
pub open spec fn lists<K, V>(entries: Seq<(K, V)>, table: Map<K, V>) -> bool {
    &&& entries.len() == table.len()
    &&& forall|i: int|
        0 <= i < entries.len() ==> table.contains_key(#[trigger] entries[i].0) && table[entries[i].0]
            == entries[i].1
    &&& forall|k: K| #[trigger]
        table.contains_key(k) ==> exists|i: int| 0 <= i < entries.len() && #[trigger] entries[i].0 == k
}

/// What reading a count and then that many entries gives: the map of the entries.
pub open spec fn parse_table<K: CerealData, V: CerealData>(bytes: Seq<u8>) -> Result<
    (Map<K::Model, V::Model>, nat),
    CerealError,
> {
    match parse_count(bytes) {
        Ok((count, used)) => match parse_items::<(K, V)>(bytes.skip(used as int), count) {
            Ok((entries, more)) => Ok((table_of(entries), used + more)),
            Err(e) => Err(e),
        },
        Err(e) => Err(e),
    }
}

/// Putting an entry into a map puts the models of its key and value into the map's model.
pub proof fn lemma_table_model_insert<K: CerealData, V: CerealData>(
    entries: Map<K, V>,
    key: K,
    value: V,
)
    requires
        keys_tell_apart::<K>(),
    ensures
        table_model(entries.insert(key, value)) == table_model(entries).insert(
            key.model(),
            value.model(),
        ),
{
    let after = entries.insert(key, value);
    assert forall|m: K::Model| #[trigger]
        table_model(after).contains_key(m) == table_model(entries).insert(
            key.model(),
            value.model(),
        ).contains_key(m) by {
        if m == key.model() {
            assert(after.contains_key(key) && key.model() == m);
        } else {
            if table_model(after).contains_key(m) {
                let k = choose|k: K| after.contains_key(k) && k.model() == m;
                assert(entries.contains_key(k) && k.model() == m);
            }
            if table_model(entries).contains_key(m) {
                let k = choose|k: K| entries.contains_key(k) && k.model() == m;
                assert(after.contains_key(k) && k.model() == m);
            }
        }
    }
    assert forall|m: K::Model| #[trigger] table_model(after).contains_key(m) implies table_model(
        after,
    )[m] == table_model(entries).insert(key.model(), value.model())[m] by {
        let k = choose|k: K| after.contains_key(k) && k.model() == m;
        if m != key.model() {
            let j = choose|j: K| entries.contains_key(j) && j.model() == m;
            assert(entries.contains_key(k) && k.model() == m);
        }
    }
    assert(table_model(after) =~= table_model(entries).insert(key.model(), value.model()));
}

/// A map is its number of entries, as a `usize`, and then its entries in the order in
/// which the map hands them out, each key followed by its value.
impl<K: Eq + Hash + CerealData, V: CerealData> CerealData for HashMap<K, V> {
    type Model = Map<K::Model, V::Model>;

    open spec fn obeys_wire_rules() -> bool {
        K::obeys_wire_rules() && V::obeys_wire_rules() && keys_are_sound::<K>()
    }

    open spec fn well_formed(&self) -> bool {
        lists(entries_of(self), self@) && all_well_formed(entries_of(self))
    }

    open spec fn model(&self) -> Map<K::Model, V::Model> {
        table_model(self@)
    }

    open spec fn wire(&self) -> Seq<u8> {
        wire_count(self@.len()) + wire_items(entries_of(self))
    }

    open spec fn parse(bytes: Seq<u8>) -> Result<(Map<K::Model, V::Model>, nat), CerealError> {
        parse_table::<K, V>(bytes)
    }

    /// A map without entries is the eight bytes of the count 0, whatever `K` and `V` are.
    fn write(&self, sink: &mut Vec<u8>) -> (r: CerealResult<()>)
        ensures
            self.len() == 0 ==> r is Ok && final(sink)@ == old(sink)@ + wire_count(0),
    {
        match self.len().write(sink) {
            Ok(()) => {},
            Err(e) => {
                return Err(e);
            },
        }
        let ghost start = sink@;
        let ghost entries = entries_of(self);
        // A `for` loop asks at its head that `K` has a key model, which a method of the
        // trait cannot ask of its callers: the loop is written out.
        let mut walk = VerusForLoopWrapper::new(self.iter(), Ghost(None));
        let mut left: usize = self.len();
        proof {
            assert(entries.skip(0) == entries);
            if Self::obeys_wire_rules() {
                let ahead = walk.seq();
                assert(ahead.unref() == entries);
                assert forall|i: int| 0 <= i < entries.len() implies self@.contains_key(
                    #[trigger] entries[i].0,
                ) && self@[entries[i].0] == entries[i].1 by {
                    assert(entries[i] == (*ahead[i].0, *ahead[i].1));
                    assert(self@.contains_key(*ahead[i].0));
                }
                assert forall|k: K| #[trigger] self@.contains_key(k) implies exists|i: int|
                    0 <= i < entries.len() && #[trigger] entries[i].0 == k by {
                    assert(ahead.contains((&k, &self@[k])));
                    let i = choose|i: int| 0 <= i < ahead.len() && ahead[i] == (&k, &self@[k]);
                    assert(entries[i] == (*ahead[i].0, *ahead[i].1));
                    assert(entries[i].0 == k);
                }
            }
        }
        // The map hands out as many entries as it holds: `left` only shows that the loop ends.
        while left > 0
            invariant
                entries == entries_of(self),
                walk.wf(),
                left == self.len() ==> sink@ == start,
                left <= self.len(),
                Self::obeys_wire_rules() ==> lists(entries, self@) && all_well_formed(
                    entries.take(walk.index()),
                ),
                Self::obeys_wire_rules() ==> left <= entries.len() && walk.index() == entries.len()
                    - left && walk.seq().unref() == entries && start + wire_items(entries) == sink@
                    + wire_items(entries.skip(walk.index())),
            decreases left,
        {
            let ghost rest = entries.skip(walk.index());
            let (key, value) = match walk.next() {
                Some(entry) => entry,
                None => {
                    return Ok(());
                },
            };
            match key.write(sink) {
                Ok(()) => {},
                Err(e) => {
                    return Err(e);
                },
            }
            match value.write(sink) {
                Ok(()) => {},
                Err(e) => {
                    return Err(e);
                },
            }
            proof {
                if Self::obeys_wire_rules() {
                    assert(walk.seq().unref()[walk.index() - 1] == rest[0]);
                    assert(rest[0] == (*key, *value));
                    assert(rest.skip(1) == entries.skip(walk.index()));
                    assert forall|i: int| 0 <= i < walk.index() implies (#[trigger] entries.take(
                        walk.index(),
                    )[i]).well_formed() by {
                        if i < walk.index() - 1 {
                            assert(entries.take(walk.index() - 1)[i] == entries.take(
                                walk.index(),
                            )[i]);
                        }
                    }
                }
            }
            left = left - 1;
        }
        proof {
            if Self::obeys_wire_rules() {
                assert(entries.skip(entries.len() as int) == Seq::<(K, V)>::empty());
                assert(entries.take(entries.len() as int) == entries);
                assert(sink@ == old(sink)@ + (wire_count(self@.len()) + wire_items(entries)));
            }
        }
        Ok(())
    }

    /// A count of 0 is a map without entries, and a count that is cut short or that the
    /// machine cannot hold is a short read, whatever `K` and `V` are.
    fn read(source: &mut Source) -> (r: CerealResult<HashMap<K, V>>)
        ensures
            parse_count(old(source).remaining()) matches Ok((count, used)) && count == 0 ==> r is Ok
                && r->Ok_0@ == Map::<K, V>::empty() && final(source).bytes() == old(source).bytes() && final(source).consumed() == old(source).consumed() + 8,
            parse_count(old(source).remaining()) matches Err(e) ==> r matches Err(x) && x == e,
    {
        let ghost start = *source;
        let count = match read_count(source) {
            Ok(count) => count,
            Err(e) => {
                return Err(e);
            },
        };
        let left = source.remaining_len();
        let mut table: HashMap<K, V> = HashMap::with_capacity(
            if count <= left {
                count
            } else {
                left
            },
        );
        let ghost first = *source;
        let ghost mut done: Seq<(K::Model, V::Model)> = Seq::empty();
        let mut index: usize = 0;
        proof {
            source.lemma_remaining_after(start, (source.consumed() - start.consumed()) as nat);
            let later = parse_items::<(K, V)>(source.remaining(), count as nat);
            if let Ok((rest, more)) = later {
                assert(done + rest == rest);
            }
            assert(table_model(table@) =~= table_of(done));
        }
        while index < count
            invariant
                index <= count,
                start == *old(source),
                index == 0 ==> table@ == Map::<K, V>::empty() && *source == first,
                Self::obeys_wire_rules() ==> source.bytes() == start.bytes(),
                first.bytes() == start.bytes(),
                first.remaining() == start.remaining().skip(8),
                first.consumed() == start.consumed() + 8,
                parse_count(start.remaining()) == Ok::<(nat, nat), CerealError>((count as nat, 8)),
                Self::obeys_wire_rules() ==> table_model(table@) == table_of(done)
                    && source.consumed() >= first.consumed() && after_items(
                    done,
                    (source.consumed() - first.consumed()) as nat,
                    parse_items::<(K, V)>(source.remaining(), (count - index) as nat),
                ) == parse_items::<(K, V)>(first.remaining(), count as nat),
            decreases count - index,
        {
            let ghost here = *source;
            let (key, value) = match <(K, V)>::read(source) {
                Ok(entry) => entry,
                Err(e) => {
                    return Err(e);
                },
            };
            proof {
                if Self::obeys_wire_rules() {
                    let used = (source.consumed() - here.consumed()) as nat;
                    source.lemma_remaining_after(here, used);
                    let later = parse_items::<(K, V)>(
                        source.remaining(),
                        (count - index - 1) as nat,
                    );
                    let entry = (key.model(), value.model());
                    if let Ok((rest, more)) = later {
                        assert(done + (seq![entry] + rest) == done.push(entry) + rest);
                    }
                    lemma_table_model_insert(table@, key, value);
                    assert(done.push(entry).drop_last() == done);
                    done = done.push(entry);
                }
            }
            table.insert(key, value);
            index = index + 1;
        }
        proof {
            assert(done + Seq::<(K::Model, V::Model)>::empty() == done);
        }
        Ok(table)
    }
}

} // verus!
