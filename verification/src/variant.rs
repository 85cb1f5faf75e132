use vstd::prelude::*;
use crate::codec::CerealData;
use crate::error::{CerealError, CerealResult};
use crate::source::Source;
use crate::wire::{lemma_radix_values, parse_le, read_le, wire_count};

verus! {

/// What reading the discriminant of a sum type with `variants` variants gives: the
/// zero-based index of a variant, or `UnknownVariant` for a number that names none. The
/// number is the one that the eight bytes spell, on every machine.
pub open spec fn parse_variant(bytes: Seq<u8>, variants: nat) -> Result<(nat, nat), CerealError> {
    match parse_le(bytes, 8) {
        Ok((index, used)) => if index < variants {
            Ok((index, used))
        } else {
            Err(CerealError::UnknownVariant)
        },
        Err(e) => Err(e),
    }
}

/// Writes the zero-based index of a sum type's active variant. The variant's fields
/// follow it, each in declared order.
pub fn write_variant(index: usize, sink: &mut Vec<u8>) -> (r: CerealResult<()>)
    ensures
        r is Ok,
        final(sink)@ == old(sink)@ + wire_count(index as nat),
{
    index.write(sink)
}

/// Reads the discriminant of a sum type with `variants` variants. A number that names no
/// variant is an error: no variant stands in for it. The number is compared as the 64-bit
/// number that it is, before it is narrowed.
pub fn read_variant(source: &mut Source, variants: usize) -> (r: CerealResult<usize>)
    ensures
        final(source).bytes() == old(source).bytes(),
        match parse_variant(old(source).remaining(), variants as nat) {
            Ok((index, used)) => r == Ok::<usize, CerealError>(index as usize) && index < variants
                && final(source).consumed() == old(source).consumed() + used,
            Err(e) => r == Err::<usize, CerealError>(e),
        },
{
    proof {
        lemma_radix_values();
    }
    match read_le(source, 8) {
        Ok(index) => if index < variants as u64 {
            Ok(index as usize)
        } else {
            Err(CerealError::UnknownVariant)
        },
        Err(e) => Err(e),
    }
}

} // verus!
