use vstd::prelude::*;
use core::marker::PhantomData;
use crate::codec::CerealData;
use crate::error::{CerealError, CerealResult};
use crate::source::Source;

verus! {

/// What reading an `A` and then a `B` from the front of `bytes` gives.
pub open spec fn parse_pair<A: CerealData, B: CerealData>(bytes: Seq<u8>) -> Result<
    ((A::Model, B::Model), nat),
    CerealError,
> {
    match A::parse(bytes) {
        Ok((first, used)) => match B::parse(bytes.skip(used as int)) {
            Ok((second, more)) => Ok(((first, second), used + more)),
            Err(e) => Err(e),
        },
        Err(e) => Err(e),
    }
}

/// The unit value takes no bytes.
impl CerealData for () {
    type Model = ();

    open spec fn obeys_wire_rules() -> bool {
        true
    }

    open spec fn model(&self) -> () {
        ()
    }

    open spec fn wire(&self) -> Seq<u8> {
        Seq::empty()
    }

    open spec fn parse(bytes: Seq<u8>) -> Result<((), nat), CerealError> {
        Ok(((), 0))
    }

    fn write(&self, sink: &mut Vec<u8>) -> (r: CerealResult<()>) {
        Ok(())
    }

    fn read(source: &mut Source) -> (r: CerealResult<()>) {
        Ok(())
    }
}

/// A marker for a type takes no bytes.
impl<T: CerealData> CerealData for PhantomData<T> {
    type Model = ();

    open spec fn obeys_wire_rules() -> bool {
        true
    }

    open spec fn model(&self) -> () {
        ()
    }

    open spec fn wire(&self) -> Seq<u8> {
        Seq::empty()
    }

    open spec fn parse(bytes: Seq<u8>) -> Result<((), nat), CerealError> {
        Ok(((), 0))
    }

    fn write(&self, sink: &mut Vec<u8>) -> (r: CerealResult<()>) {
        Ok(())
    }

    fn read(source: &mut Source) -> (r: CerealResult<PhantomData<T>>) {
        Ok(PhantomData)
    }
}

/// A pair is its first field, then its second, with nothing between or around them.
impl<T: CerealData, U: CerealData> CerealData for (T, U) {
    type Model = (T::Model, U::Model);

    open spec fn obeys_wire_rules() -> bool {
        T::obeys_wire_rules() && U::obeys_wire_rules()
    }

    open spec fn well_formed(&self) -> bool {
        self.0.well_formed() && self.1.well_formed()
    }

    open spec fn model(&self) -> (T::Model, U::Model) {
        (self.0.model(), self.1.model())
    }

    open spec fn wire(&self) -> Seq<u8> {
        self.0.wire() + self.1.wire()
    }

    open spec fn parse(bytes: Seq<u8>) -> Result<((T::Model, U::Model), nat), CerealError> {
        parse_pair::<T, U>(bytes)
    }

    fn write(&self, sink: &mut Vec<u8>) -> (r: CerealResult<()>) {
        match self.0.write(sink) {
            Ok(()) => {},
            Err(e) => {
                return Err(e);
            },
        }
        let r = self.1.write(sink);
        assert(Self::obeys_wire_rules() ==> sink@ == old(sink)@ + (self.0.wire() + self.1.wire()));
        r
    }

    fn read(source: &mut Source) -> (r: CerealResult<(T, U)>) {
        let ghost start = *source;
        let first = match T::read(source) {
            Ok(first) => first,
            Err(e) => {
                return Err(e);
            },
        };
        proof {
            if T::obeys_wire_rules() {
                source.lemma_remaining_after(start, (source.consumed() - start.consumed()) as nat);
            }
        }
        let second = match U::read(source) {
            Ok(second) => second,
            Err(e) => {
                return Err(e);
            },
        };
        Ok((first, second))
    }
}

/// An array of two is its first element, then its second.
impl<T: CerealData> CerealData for [T; 2] {
    type Model = (T::Model, T::Model);

    open spec fn obeys_wire_rules() -> bool {
        T::obeys_wire_rules()
    }

    open spec fn well_formed(&self) -> bool {
        self@[0].well_formed() && self@[1].well_formed()
    }

    open spec fn model(&self) -> (T::Model, T::Model) {
        (self@[0].model(), self@[1].model())
    }

    open spec fn wire(&self) -> Seq<u8> {
        self@[0].wire() + self@[1].wire()
    }

    open spec fn parse(bytes: Seq<u8>) -> Result<((T::Model, T::Model), nat), CerealError> {
        parse_pair::<T, T>(bytes)
    }

    fn write(&self, sink: &mut Vec<u8>) -> (r: CerealResult<()>) {
        match self[0].write(sink) {
            Ok(()) => {},
            Err(e) => {
                return Err(e);
            },
        }
        let r = self[1].write(sink);
        assert(Self::obeys_wire_rules() ==> sink@ == old(sink)@ + (self@[0].wire()
            + self@[1].wire()));
        r
    }

    fn read(source: &mut Source) -> (r: CerealResult<[T; 2]>) {
        let ghost start = *source;
        let first = match T::read(source) {
            Ok(first) => first,
            Err(e) => {
                return Err(e);
            },
        };
        proof {
            if T::obeys_wire_rules() {
                source.lemma_remaining_after(start, (source.consumed() - start.consumed()) as nat);
            }
        }
        let second = match T::read(source) {
            Ok(second) => second,
            Err(e) => {
                return Err(e);
            },
        };
        Ok([first, second])
    }
}

/// A boxed value is written as the value itself.
impl<T: CerealData> CerealData for Box<T> {
    type Model = T::Model;

    open spec fn obeys_wire_rules() -> bool {
        T::obeys_wire_rules()
    }

    open spec fn well_formed(&self) -> bool {
        (**self).well_formed()
    }

    open spec fn model(&self) -> T::Model {
        (**self).model()
    }

    open spec fn wire(&self) -> Seq<u8> {
        (**self).wire()
    }

    open spec fn parse(bytes: Seq<u8>) -> Result<(T::Model, nat), CerealError> {
        T::parse(bytes)
    }

    fn write(&self, sink: &mut Vec<u8>) -> (r: CerealResult<()>) {
        (**self).write(sink)
    }

    fn read(source: &mut Source) -> (r: CerealResult<Box<T>>) {
        match T::read(source) {
            Ok(value) => Ok(Box::new(value)),
            Err(e) => Err(e),
        }
    }
}

} // verus!
