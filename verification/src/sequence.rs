use vstd::prelude::*;
use crate::codec::CerealData;
use crate::error::{CerealError, CerealResult};
use crate::source::Source;
use crate::wire::{parse_count, read_count, wire_count};

verus! {

/// The models of `items`, in order.
pub open spec fn models_of<T: CerealData>(items: Seq<T>) -> Seq<T::Model> {
    Seq::new(items.len(), |i: int| items[i].model())
}

/// Whether a program can hold each of `items`.
pub open spec fn all_well_formed<T: CerealData>(items: Seq<T>) -> bool {
    forall|i: int| 0 <= i < items.len() ==> (#[trigger] items[i]).well_formed()
}

/// The encodings of `items`, one after the other.
pub open spec fn wire_items<T: CerealData>(items: Seq<T>) -> Seq<u8>
    decreases items.len(),
{
    if items.len() == 0 {
        Seq::empty()
    } else {
        items[0].wire() + wire_items(items.skip(1))
    }
}

/// What reading `count` values of `T` from the front of `bytes` gives: the values and
/// the number of bytes they took, or the error of the first value that failed.
pub open spec fn parse_items<T: CerealData>(bytes: Seq<u8>, count: nat) -> Result<
    (Seq<T::Model>, nat),
    CerealError,
>
    decreases count,
{
    if count == 0 {
        Ok((Seq::empty(), 0))
    } else {
        match T::parse(bytes) {
            Ok((first, used)) => match parse_items::<T>(
                bytes.skip(used as int),
                (count - 1) as nat,
            ) {
                Ok((rest, more)) => Ok((seq![first] + rest, used + more)),
                Err(e) => Err(e),
            },
            Err(e) => Err(e),
        }
    }
}

/// The result `later`, of reading on after `done` was read from `used` bytes.
pub open spec fn after_items<M>(done: Seq<M>, used: nat, later: Result<(Seq<M>, nat), CerealError>)
    -> Result<(Seq<M>, nat), CerealError> {
    match later {
        Ok((rest, more)) => Ok((done + rest, used + more)),
        Err(e) => Err(e),
    }
}

/// What reading a count and then that many values of `T` gives.
pub open spec fn parse_counted<T: CerealData>(bytes: Seq<u8>) -> Result<
    (Seq<T::Model>, nat),
    CerealError,
> {
    match parse_count(bytes) {
        Ok((count, used)) => after_items(
            Seq::empty(),
            used,
            parse_items::<T>(bytes.skip(used as int), count),
        ),
        Err(e) => Err(e),
    }
}

/// Writes each of `items` in turn.
pub fn write_items<T: CerealData>(items: &Vec<T>, sink: &mut Vec<u8>) -> (r: CerealResult<()>)
    ensures
        T::obeys_wire_rules() ==> r is Ok && final(sink)@ == old(sink)@ + wire_items(items@),
        T::obeys_wire_rules() ==> all_well_formed(items@),
        items@.len() == 0 ==> r is Ok && final(sink)@ == old(sink)@,
{
    let ghost before = sink@;
    let mut index: usize = 0;
    assert(items@.skip(0) == items@);
    while index < items.len()
        invariant
            index <= items.len(),
            index == 0 ==> sink@ == before,
            T::obeys_wire_rules() ==> before + wire_items(items@) == sink@ + wire_items(
                items@.skip(index as int),
            ),
            T::obeys_wire_rules() ==> all_well_formed(items@.take(index as int)),
        decreases items.len() - index,
    {
        let ghost so_far = sink@;
        match items[index].write(sink) {
            Ok(()) => {},
            Err(e) => {
                return Err(e);
            },
        }
        proof {
            let left = items@.skip(index as int);
            assert(left.skip(1) == items@.skip(index + 1));
            assert forall|i: int| 0 <= i < index + 1 implies T::obeys_wire_rules() ==> (
            #[trigger] items@.take(index + 1)[i]).well_formed() by {
                if i < index {
                    assert(items@.take(index as int)[i] == items@.take(index + 1)[i]);
                }
            }
            assert(T::obeys_wire_rules() ==> so_far + wire_items(left) == sink@ + wire_items(
                left.skip(1),
            ));
        }
        index = index + 1;
    }
    assert(items@.take(index as int) == items@);
    Ok(())
}

/// Reads `count` values of `T`, one after the other.
pub fn read_items<T: CerealData>(source: &mut Source, count: usize) -> (r: CerealResult<Vec<T>>)
    ensures
        T::obeys_wire_rules() ==> final(source).bytes() == old(source).bytes(),
        T::obeys_wire_rules() ==> match parse_items::<T>(old(source).remaining(), count as nat) {
            Ok((items, used)) => r matches Ok(v) && models_of(v@) == items
                && final(source).consumed() == old(source).consumed() + used,
            Err(e) => r matches Err(x) && x == e,
        },
        count == 0 ==> r is Ok && r->Ok_0@.len() == 0 && *final(source) == *old(source),
{
    let ghost start = *source;
    let left = source.remaining_len();
    let mut items: Vec<T> = Vec::with_capacity(
        if count <= left {
            count
        } else {
            left
        },
    );
    let mut index: usize = 0;
    assert(after_items(
        models_of(items@),
        0,
        parse_items::<T>(source.remaining(), count as nat),
    ) == parse_items::<T>(start.remaining(), count as nat)) by {
        let later = parse_items::<T>(source.remaining(), count as nat);
        if let Ok((rest, more)) = later {
            assert(models_of(items@) + rest == rest);
        }
    }
    while index < count
        invariant
            index <= count,
            start == *old(source),
            index == 0 ==> items@.len() == 0 && *source == start,
            T::obeys_wire_rules() ==> source.bytes() == start.bytes() && source.consumed()
                >= start.consumed() && after_items(
                models_of(items@),
                (source.consumed() - start.consumed()) as nat,
                parse_items::<T>(source.remaining(), (count - index) as nat),
            ) == parse_items::<T>(start.remaining(), count as nat),
        decreases count - index,
    {
        let ghost here = *source;
        let ghost done = models_of(items@);
        let item = match T::read(source) {
            Ok(item) => item,
            Err(e) => {
                return Err(e);
            },
        };
        items.push(item);
        proof {
            if T::obeys_wire_rules() {
                let used = (source.consumed() - here.consumed()) as nat;
                source.lemma_remaining_after(here, used);
                let later = parse_items::<T>(source.remaining(), (count - index - 1) as nat);
                assert(models_of(items@) == done.push(item.model()));
                if let Ok((rest, more)) = later {
                    assert(done + (seq![item.model()] + rest) == done.push(item.model()) + rest);
                }
            }
        }
        index = index + 1;
    }
    proof {
        assert(models_of(items@) + Seq::<T::Model>::empty() == models_of(items@));
    }
    Ok(items)
}

/// A sequence is its length, as a `usize`, and then its items in order.
impl<T: CerealData> CerealData for Vec<T> {
    type Model = Seq<T::Model>;

    open spec fn obeys_wire_rules() -> bool {
        T::obeys_wire_rules()
    }

    open spec fn well_formed(&self) -> bool {
        all_well_formed(self@)
    }

    open spec fn model(&self) -> Seq<T::Model> {
        models_of(self@)
    }

    open spec fn wire(&self) -> Seq<u8> {
        wire_count(self@.len()) + wire_items(self@)
    }

    open spec fn parse(bytes: Seq<u8>) -> Result<(Seq<T::Model>, nat), CerealError> {
        parse_counted::<T>(bytes)
    }

    /// An empty sequence is the eight bytes of the length 0, whatever `T` is.
    fn write(&self, sink: &mut Vec<u8>) -> (r: CerealResult<()>)
        ensures
            self@.len() == 0 ==> r is Ok && final(sink)@ == old(sink)@ + wire_count(0),
    {
        match self.len().write(sink) {
            Ok(()) => {},
            Err(e) => {
                return Err(e);
            },
        }
        let r = write_items(self, sink);
        assert(T::obeys_wire_rules() ==> sink@ == old(sink)@ + (wire_count(self@.len()) + wire_items(
            self@,
        )));
        r
    }

    /// A length of 0 is an empty sequence, and a length that is cut short or that the
    /// machine cannot hold is a short read, whatever `T` is.
    fn read(source: &mut Source) -> (r: CerealResult<Vec<T>>)
        ensures
            parse_count(old(source).remaining()) matches Ok((count, used)) && count == 0 ==> r is Ok
                && r->Ok_0@.len() == 0 && final(source).bytes() == old(source).bytes() && final(source).consumed() == old(source).consumed() + 8,
            parse_count(old(source).remaining()) matches Err(e) ==> r matches Err(x) && x == e,
    {
        let ghost start = *source;
        let count = match read_count(source) {
            Ok(count) => count,
            Err(e) => {
                return Err(e);
            },
        };
        proof {
            source.lemma_remaining_after(start, (source.consumed() - start.consumed()) as nat);
            let later = parse_items::<T>(source.remaining(), count as nat);
            if let Ok((rest, more)) = later {
                assert(Seq::<T::Model>::empty() + rest == rest);
            }
        }
        read_items(source, count)
    }
}

} // verus!
