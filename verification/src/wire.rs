use vstd::prelude::*;
use crate::error::{CerealError, CerealResult, IoFailure, end_of_stream};
use crate::source::Source;

verus! {

/// 256 to the power `width`: how many values `width` bytes can tell apart.
pub open spec fn radix(width: nat) -> nat
    decreases width,
{
    if width == 0 {
        1
    } else {
        256 * radix((width - 1) as nat)
    }
}

/// The `width` low bytes of `value`, least significant first.
pub open spec fn le_bytes(value: nat, width: nat) -> Seq<u8>
    decreases width,
{
    if width == 0 {
        Seq::empty()
    } else {
        seq![(value % 256) as u8] + le_bytes(value / 256, (width - 1) as nat)
    }
}

/// The number that `bytes` spell, least significant byte first.
pub open spec fn le_value(bytes: Seq<u8>) -> nat
    decreases bytes.len(),
{
    if bytes.len() == 0 {
        0
    } else {
        bytes[0] as nat + 256 * le_value(bytes.skip(1))
    }
}

/// What reading a `width`-byte number from the front of `bytes` gives:
/// the number and `width`, or a short read.
pub open spec fn parse_le(bytes: Seq<u8>, width: nat) -> Result<(nat, nat), CerealError> {
    if bytes.len() >= width {
        Ok((le_value(bytes.take(width as int)), width))
    } else {
        Err(end_of_stream())
    }
}

/// How a collection's length and a sum type's discriminant are written: as eight bytes,
/// whatever the width of an address on the machine.
pub open spec fn wire_count(count: nat) -> Seq<u8> {
    le_bytes(count, 8)
}

/// What reading a collection's length gives: the number that the next eight bytes spell.
/// A length that the machine cannot hold is a short read: no buffer holds as many items.
pub open spec fn parse_count(bytes: Seq<u8>) -> Result<(nat, nat), CerealError> {
    match parse_le(bytes, 8) {
        Ok((value, used)) => if value <= usize::MAX {
            Ok((value, used))
        } else {
            Err(end_of_stream())
        },
        Err(e) => Err(e),
    }
}

/// How a signed number of `width` bytes is stored: negative numbers count down from `radix(width)`.
pub open spec fn to_unsigned(value: int, width: nat) -> nat {
    if value >= 0 {
        value as nat
    } else {
        (value + radix(width)) as nat
    }
}

/// The signed number that `to_unsigned` stored as `stored`.
pub open spec fn to_signed(stored: nat, width: nat) -> int {
    if 2 * stored < radix(width) {
        stored as int
    } else {
        stored - radix(width)
    }
}

/// The values that one to eight bytes can tell apart.
pub proof fn lemma_radix_values()
    ensures
        radix(0) == 1,
        radix(1) == 0x100,
        radix(2) == 0x1_0000,
        radix(3) == 0x100_0000,
        radix(4) == 0x1_0000_0000,
        radix(5) == 0x100_0000_0000,
        radix(6) == 0x1_0000_0000_0000,
        radix(7) == 0x100_0000_0000_0000,
        radix(8) == 0x1_0000_0000_0000_0000,
{
    reveal_with_fuel(radix, 9);
}

/// A number written in `width` bytes takes exactly `width` bytes.
pub proof fn lemma_le_bytes_len(value: nat, width: nat)
    ensures
        le_bytes(value, width).len() == width,
    decreases width,
{
    if width > 0 {
        lemma_le_bytes_len(value / 256, (width - 1) as nat);
    }
}

/// Bytes spell a number below `radix` of their count.
pub proof fn lemma_le_value_bound(bytes: Seq<u8>)
    ensures
        le_value(bytes) < radix(bytes.len()),
    decreases bytes.len(),
{
    if bytes.len() > 0 {
        lemma_le_value_bound(bytes.skip(1));
    }
}

/// Reading back the bytes of a number that fits gives the number.
pub proof fn lemma_le_value_of_bytes(value: nat, width: nat)
    requires
        value < radix(width),
    ensures
        le_value(le_bytes(value, width)) == value,
    decreases width,
{
    if width > 0 {
        let rest = le_bytes(value / 256, (width - 1) as nat);
        lemma_le_value_of_bytes(value / 256, (width - 1) as nat);
        lemma_le_bytes_len(value, width);
        assert(le_bytes(value, width).skip(1) == rest);
    }
}

/// A number that fits in `width` bytes is read back from its bytes, whatever follows them.
pub proof fn lemma_parse_le_of_bytes(value: nat, width: nat, rest: Seq<u8>)
    requires
        value < radix(width),
    ensures
        parse_le(le_bytes(value, width) + rest, width) == Ok::<(nat, nat), CerealError>(
            (value, width),
        ),
{
    lemma_le_bytes_len(value, width);
    lemma_le_value_of_bytes(value, width);
    assert((le_bytes(value, width) + rest).take(width as int) == le_bytes(value, width));
}

/// Signed numbers in range survive being stored and read back.
pub proof fn lemma_signed_round_trip(value: int, width: nat)
    requires
        width >= 1,
        -(radix(width) as int) <= 2 * value < radix(width),
    ensures
        to_unsigned(value, width) < radix(width),
        to_signed(to_unsigned(value, width), width) == value,
{
}

/// Appends the `width` low bytes of `value` to `sink`, least significant first.
pub fn write_le(value: u64, width: usize, sink: &mut Vec<u8>)
    requires
        width <= 8,
    ensures
        final(sink)@ == old(sink)@ + le_bytes(value as nat, width as nat),
{
    let ghost before = sink@;
    let mut rest: u64 = value;
    let mut done: usize = 0;
    while done < width
        invariant
            done <= width,
            before + le_bytes(value as nat, width as nat) == sink@ + le_bytes(
                rest as nat,
                (width - done) as nat,
            ),
        decreases width - done,
    {
        let ghost tail = le_bytes((rest / 256) as nat, (width - done - 1) as nat);
        assert(sink@ + le_bytes(rest as nat, (width - done) as nat) == sink@.push(
            (rest % 256) as u8,
        ) + tail);
        sink.push((rest % 256) as u8);
        rest = rest / 256;
        done = done + 1;
    }
}

/// Reads a `width`-byte number, least significant byte first.
pub fn read_le(source: &mut Source, width: usize) -> (r: CerealResult<u64>)
    requires
        width <= 8,
    ensures
        final(source).bytes() == old(source).bytes(),
        match parse_le(old(source).remaining(), width as nat) {
            Ok((value, count)) => r == Ok::<u64, CerealError>(value as u64) && value < radix(
                width as nat,
            ) && final(source).consumed() == old(source).consumed() + count,
            Err(e) => r == Err::<u64, CerealError>(e),
        },
{
    let chunk = match source.take(width) {
        Ok(chunk) => chunk,
        Err(e) => {
            return Err(e);
        },
    };
    let mut value: u64 = 0;
    let mut index: usize = width;
    proof {
        lemma_radix_values();
    }
    while index > 0
        invariant
            index <= width <= 8,
            chunk@.len() == width,
            value == le_value(chunk@.skip(index as int)),
        decreases index,
    {
        index = index - 1;
        proof {
            let tail = chunk@.skip(index + 1);
            lemma_le_value_bound(tail);
            lemma_radix_step_bound(tail.len(), 7);
            lemma_radix_values();
            assert(chunk@.skip(index as int).skip(1) == tail);
        }
        value = value * 256 + chunk[index] as u64;
    }
    proof {
        assert(chunk@.skip(0) == chunk@);
        lemma_le_value_bound(chunk@);
    }
    Ok(value)
}

/// Reads a collection's length. It is compared with what the machine can hold as the
/// 64-bit number that it is, before it is narrowed.
pub fn read_count(source: &mut Source) -> (r: CerealResult<usize>)
    ensures
        final(source).bytes() == old(source).bytes(),
        match parse_count(old(source).remaining()) {
            Ok((value, used)) => r == Ok::<usize, CerealError>(value as usize) && value
                <= usize::MAX && final(source).consumed() == old(source).consumed() + used,
            Err(e) => r == Err::<usize, CerealError>(e),
        },
{
    proof {
        lemma_radix_values();
    }
    match read_le(source, 8) {
        Ok(value) => if value <= usize::MAX as u64 {
            Ok(value as usize)
        } else {
            Err(CerealError::Io(IoFailure::UnexpectedEof))
        },
        Err(e) => Err(e),
    }
}

/// `radix` grows with the width.
pub proof fn lemma_radix_step_bound(narrow: nat, wide: nat)
    requires
        narrow <= wide,
    ensures
        radix(narrow) <= radix(wide),
    decreases wide,
{
    if narrow < wide {
        lemma_radix_step_bound(narrow, (wide - 1) as nat);
    }
}

} // verus!
