use vstd::prelude::*;
use crate::error::{CerealError, CerealResult};
use crate::source::Source;

verus! {

/// A type that is written to bytes and read back from them.
///
/// `write` appends the encoding of a value to a sink, and `read` takes a value from the
/// front of a source. The two must be symmetric: `read` gives back an equal value from
/// the bytes that `write` gave, and takes exactly those bytes.
///
/// The ghost members say what the two do. `model` is what a value stands for, `wire` the
/// bytes that `write` gives for it, and `parse` what `read` gives from the front of a byte
/// sequence: a model and the number of bytes taken, or an error. An implementation that
/// was verified against them says so in `obeys_wire_rules`; of one that leaves the ghost
/// members as they are here, as code outside the verifier must, nothing is known.
///
/// `well_formed` holds of the values that a program can hold: a text whose length fits in
/// a `usize`, a map that hands out the entries it holds. `write` gives it of the value it
/// wrote, and the laws are stated of such values.
pub trait CerealData: Sized {
    /// What a value stands for: the value itself for a number, a `Seq` of models for a
    /// `Vec`, and so on.
    type Model;

    /// Whether `write` and `read` do what `wire` and `parse` say.
    open spec fn obeys_wire_rules() -> bool {
        false
    }

    /// Whether a program can hold this value. Every value that was written is.
    open spec fn well_formed(&self) -> bool {
        true
    }

    /// What this value stands for.
    open spec fn model(&self) -> Self::Model {
        arbitrary()
    }

    /// The bytes that `write` gives for this value.
    open spec fn wire(&self) -> Seq<u8> {
        Seq::empty()
    }

    /// What `read` gives from the front of `bytes`: the model of a value and the number of
    /// bytes that the value took, or the error.
    open spec fn parse(bytes: Seq<u8>) -> Result<(Self::Model, nat), CerealError> {
        Err(CerealError::InvalidEncoding)
    }

    /// Appends the encoding of this value to `sink`.
    fn write(&self, sink: &mut Vec<u8>) -> (r: CerealResult<()>)
        ensures
            Self::obeys_wire_rules() ==> r is Ok && final(sink)@ == old(sink)@ + self.wire(),
            Self::obeys_wire_rules() ==> self.well_formed(),
    ;

    /// Reads a value from the front of what is left of `source`. After an error nothing is
    /// said of how far `source` was read.
    fn read(source: &mut Source) -> (r: CerealResult<Self>)
        ensures
            Self::obeys_wire_rules() ==> final(source).bytes() == old(source).bytes(),
            Self::obeys_wire_rules() ==> match Self::parse(old(source).remaining()) {
                Ok((m, n)) => r matches Ok(v) && v.model() == m && final(source).consumed()
                    == old(source).consumed() + n,
                Err(e) => r matches Err(x) && x == e,
            },
    ;
}

} // verus!
