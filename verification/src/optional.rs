use vstd::prelude::*;
use crate::codec::CerealData;
use crate::error::{CerealError, CerealResult};
use crate::source::Source;
use crate::wire::le_bytes;

verus! {

/// A one-byte tag, 1 or 0, and after a 1 the value.
impl<T: CerealData> CerealData for Option<T> {
    type Model = Option<T::Model>;

    open spec fn obeys_wire_rules() -> bool {
        T::obeys_wire_rules()
    }

    open spec fn well_formed(&self) -> bool {
        match self {
            Some(value) => value.well_formed(),
            None => true,
        }
    }

    open spec fn model(&self) -> Option<T::Model> {
        match self {
            Some(value) => Some(value.model()),
            None => None,
        }
    }

    open spec fn wire(&self) -> Seq<u8> {
        match self {
            Some(value) => true.wire() + value.wire(),
            None => false.wire(),
        }
    }

    open spec fn parse(bytes: Seq<u8>) -> Result<(Option<T::Model>, nat), CerealError> {
        match bool::parse(bytes) {
            Ok((present, used)) => if present {
                match T::parse(bytes.skip(used as int)) {
                    Ok((value, more)) => Ok((Some(value), used + more)),
                    Err(e) => Err(e),
                }
            } else {
                Ok((None, used))
            },
            Err(e) => Err(e),
        }
    }

    /// An absent value is the one byte 0, whatever `T` is.
    fn write(&self, sink: &mut Vec<u8>) -> (r: CerealResult<()>)
        ensures
            self is None ==> r is Ok && final(sink)@ == old(sink)@ + seq![0u8],
    {
        proof {
            reveal_with_fuel(le_bytes, 2);
            assert(le_bytes(0, 1) == seq![0u8]);
        }
        match self {
            Some(value) => {
                match true.write(sink) {
                    Ok(()) => {},
                    Err(e) => {
                        return Err(e);
                    },
                }
                let r = value.write(sink);
                assert(Self::obeys_wire_rules() ==> sink@ == old(sink)@ + (true.wire()
                    + value.wire()));
                r
            },
            None => false.write(sink),
        }
    }

    /// A tag of 0 is an absent value and a missing tag a short read, whatever `T` is.
    fn read(source: &mut Source) -> (r: CerealResult<Option<T>>)
        ensures
            bool::parse(old(source).remaining()) matches Ok((present, used)) && !present ==> r is Ok
                && r->Ok_0 is None && final(source).bytes() == old(source).bytes() && final(source).consumed() == old(source).consumed() + 1,
            bool::parse(old(source).remaining()) matches Err(e) ==> r matches Err(x) && x == e,
    {
        let ghost start = *source;
        let present = match bool::read(source) {
            Ok(present) => present,
            Err(e) => {
                return Err(e);
            },
        };
        if present {
            proof {
                source.lemma_remaining_after(start, (source.consumed() - start.consumed()) as nat);
            }
            match T::read(source) {
                Ok(value) => Ok(Some(value)),
                Err(e) => Err(e),
            }
        } else {
            Ok(None)
        }
    }
}

} // verus!
