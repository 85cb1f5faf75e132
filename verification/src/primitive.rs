use vstd::prelude::*;
use crate::codec::CerealData;
use crate::error::{CerealError, CerealResult};
use crate::source::Source;
use crate::wire::{
    le_bytes, lemma_le_value_bound, lemma_radix_values, parse_le, read_le, to_signed, to_unsigned,
    write_le,
};

verus! {

/// One byte.
impl CerealData for u8 {
    type Model = u8;

    open spec fn obeys_wire_rules() -> bool {
        true
    }

    open spec fn model(&self) -> u8 {
        *self
    }

    open spec fn wire(&self) -> Seq<u8> {
        le_bytes(*self as nat, 1)
    }

    open spec fn parse(bytes: Seq<u8>) -> Result<(u8, nat), CerealError> {
        match parse_le(bytes, 1) {
            Ok((value, count)) => Ok((value as u8, count)),
            Err(e) => Err(e),
        }
    }

    fn write(&self, sink: &mut Vec<u8>) -> (r: CerealResult<()>) {
        write_le(*self as u64, 1, sink);
        Ok(())
    }

    fn read(source: &mut Source) -> (r: CerealResult<u8>) {
        match read_le(source, 1) {
            Ok(value) => {
                proof {
                    lemma_radix_values();
                }
                Ok(value as u8)
            },
            Err(e) => Err(e),
        }
    }
}

/// One byte, two's complement.
impl CerealData for i8 {
    type Model = i8;

    open spec fn obeys_wire_rules() -> bool {
        true
    }

    open spec fn model(&self) -> i8 {
        *self
    }

    open spec fn wire(&self) -> Seq<u8> {
        le_bytes(to_unsigned(*self as int, 1), 1)
    }

    open spec fn parse(bytes: Seq<u8>) -> Result<(i8, nat), CerealError> {
        match parse_le(bytes, 1) {
            Ok((value, count)) => Ok((to_signed(value, 1) as i8, count)),
            Err(e) => Err(e),
        }
    }

    fn write(&self, sink: &mut Vec<u8>) -> (r: CerealResult<()>) {
        let value: i8 = *self;
        let stored: u8 = #[verifier::truncate]
        (value as u8);
        proof {
            lemma_radix_values();
            assert(stored as int == if value >= 0 {
                value as int
            } else {
                value + 0x100
            }) by (bit_vector)
                requires
                    stored == value as u8,
            ;
        }
        write_le(stored as u64, 1, sink);
        Ok(())
    }

    fn read(source: &mut Source) -> (r: CerealResult<i8>) {
        match read_le(source, 1) {
            Ok(value) => {
                proof {
                    lemma_radix_values();
                }
                let stored: u8 = value as u8;
                let signed: i8 = #[verifier::truncate]
                (stored as i8);
                proof {
                    assert(signed as int == if stored < 0x80 {
                        stored as int
                    } else {
                        stored - 0x100
                    }) by (bit_vector)
                        requires
                            signed == stored as i8,
                    ;
                }
                Ok(signed)
            },
            Err(e) => Err(e),
        }
    }
}

/// Two bytes, least significant first.
impl CerealData for u16 {
    type Model = u16;

    open spec fn obeys_wire_rules() -> bool {
        true
    }

    open spec fn model(&self) -> u16 {
        *self
    }

    open spec fn wire(&self) -> Seq<u8> {
        le_bytes(*self as nat, 2)
    }

    open spec fn parse(bytes: Seq<u8>) -> Result<(u16, nat), CerealError> {
        match parse_le(bytes, 2) {
            Ok((value, count)) => Ok((value as u16, count)),
            Err(e) => Err(e),
        }
    }

    fn write(&self, sink: &mut Vec<u8>) -> (r: CerealResult<()>) {
        write_le(*self as u64, 2, sink);
        Ok(())
    }

    fn read(source: &mut Source) -> (r: CerealResult<u16>) {
        match read_le(source, 2) {
            Ok(value) => {
                proof {
                    lemma_radix_values();
                }
                Ok(value as u16)
            },
            Err(e) => Err(e),
        }
    }
}

/// Two bytes, two's complement, least significant first.
impl CerealData for i16 {
    type Model = i16;

    open spec fn obeys_wire_rules() -> bool {
        true
    }

    open spec fn model(&self) -> i16 {
        *self
    }

    open spec fn wire(&self) -> Seq<u8> {
        le_bytes(to_unsigned(*self as int, 2), 2)
    }

    open spec fn parse(bytes: Seq<u8>) -> Result<(i16, nat), CerealError> {
        match parse_le(bytes, 2) {
            Ok((value, count)) => Ok((to_signed(value, 2) as i16, count)),
            Err(e) => Err(e),
        }
    }

    fn write(&self, sink: &mut Vec<u8>) -> (r: CerealResult<()>) {
        let value: i16 = *self;
        let stored: u16 = #[verifier::truncate]
        (value as u16);
        proof {
            lemma_radix_values();
            assert(stored as int == if value >= 0 {
                value as int
            } else {
                value + 0x1_0000
            }) by (bit_vector)
                requires
                    stored == value as u16,
            ;
        }
        write_le(stored as u64, 2, sink);
        Ok(())
    }

    fn read(source: &mut Source) -> (r: CerealResult<i16>) {
        match read_le(source, 2) {
            Ok(value) => {
                proof {
                    lemma_radix_values();
                }
                let stored: u16 = value as u16;
                let signed: i16 = #[verifier::truncate]
                (stored as i16);
                proof {
                    assert(signed as int == if stored < 0x8000 {
                        stored as int
                    } else {
                        stored - 0x1_0000
                    }) by (bit_vector)
                        requires
                            signed == stored as i16,
                    ;
                }
                Ok(signed)
            },
            Err(e) => Err(e),
        }
    }
}

/// Four bytes, least significant first.
impl CerealData for u32 {
    type Model = u32;

    open spec fn obeys_wire_rules() -> bool {
        true
    }

    open spec fn model(&self) -> u32 {
        *self
    }

    open spec fn wire(&self) -> Seq<u8> {
        le_bytes(*self as nat, 4)
    }

    open spec fn parse(bytes: Seq<u8>) -> Result<(u32, nat), CerealError> {
        match parse_le(bytes, 4) {
            Ok((value, count)) => Ok((value as u32, count)),
            Err(e) => Err(e),
        }
    }

    fn write(&self, sink: &mut Vec<u8>) -> (r: CerealResult<()>) {
        write_le(*self as u64, 4, sink);
        Ok(())
    }

    fn read(source: &mut Source) -> (r: CerealResult<u32>) {
        match read_le(source, 4) {
            Ok(value) => {
                proof {
                    lemma_radix_values();
                }
                Ok(value as u32)
            },
            Err(e) => Err(e),
        }
    }
}

/// Four bytes, two's complement, least significant first.
impl CerealData for i32 {
    type Model = i32;

    open spec fn obeys_wire_rules() -> bool {
        true
    }

    open spec fn model(&self) -> i32 {
        *self
    }

    open spec fn wire(&self) -> Seq<u8> {
        le_bytes(to_unsigned(*self as int, 4), 4)
    }

    open spec fn parse(bytes: Seq<u8>) -> Result<(i32, nat), CerealError> {
        match parse_le(bytes, 4) {
            Ok((value, count)) => Ok((to_signed(value, 4) as i32, count)),
            Err(e) => Err(e),
        }
    }

    fn write(&self, sink: &mut Vec<u8>) -> (r: CerealResult<()>) {
        let value: i32 = *self;
        let stored: u32 = #[verifier::truncate]
        (value as u32);
        proof {
            lemma_radix_values();
            assert(stored as int == if value >= 0 {
                value as int
            } else {
                value + 0x1_0000_0000
            }) by (bit_vector)
                requires
                    stored == value as u32,
            ;
        }
        write_le(stored as u64, 4, sink);
        Ok(())
    }

    fn read(source: &mut Source) -> (r: CerealResult<i32>) {
        match read_le(source, 4) {
            Ok(value) => {
                proof {
                    lemma_radix_values();
                }
                let stored: u32 = value as u32;
                let signed: i32 = #[verifier::truncate]
                (stored as i32);
                proof {
                    assert(signed as int == if stored < 0x8000_0000 {
                        stored as int
                    } else {
                        stored - 0x1_0000_0000
                    }) by (bit_vector)
                        requires
                            signed == stored as i32,
                    ;
                }
                Ok(signed)
            },
            Err(e) => Err(e),
        }
    }
}

/// Eight bytes, least significant first.
impl CerealData for u64 {
    type Model = u64;

    open spec fn obeys_wire_rules() -> bool {
        true
    }

    open spec fn model(&self) -> u64 {
        *self
    }

    open spec fn wire(&self) -> Seq<u8> {
        le_bytes(*self as nat, 8)
    }

    open spec fn parse(bytes: Seq<u8>) -> Result<(u64, nat), CerealError> {
        match parse_le(bytes, 8) {
            Ok((value, count)) => Ok((value as u64, count)),
            Err(e) => Err(e),
        }
    }

    fn write(&self, sink: &mut Vec<u8>) -> (r: CerealResult<()>) {
        write_le(*self as u64, 8, sink);
        Ok(())
    }

    fn read(source: &mut Source) -> (r: CerealResult<u64>) {
        match read_le(source, 8) {
            Ok(value) => {
                proof {
                    lemma_radix_values();
                }
                Ok(value as u64)
            },
            Err(e) => Err(e),
        }
    }
}

/// Eight bytes, two's complement, least significant first.
impl CerealData for i64 {
    type Model = i64;

    open spec fn obeys_wire_rules() -> bool {
        true
    }

    open spec fn model(&self) -> i64 {
        *self
    }

    open spec fn wire(&self) -> Seq<u8> {
        le_bytes(to_unsigned(*self as int, 8), 8)
    }

    open spec fn parse(bytes: Seq<u8>) -> Result<(i64, nat), CerealError> {
        match parse_le(bytes, 8) {
            Ok((value, count)) => Ok((to_signed(value, 8) as i64, count)),
            Err(e) => Err(e),
        }
    }

    fn write(&self, sink: &mut Vec<u8>) -> (r: CerealResult<()>) {
        let value: i64 = *self;
        let stored: u64 = #[verifier::truncate]
        (value as u64);
        proof {
            lemma_radix_values();
            assert(stored as int == if value >= 0 {
                value as int
            } else {
                value + 0x1_0000_0000_0000_0000
            }) by (bit_vector)
                requires
                    stored == value as u64,
            ;
        }
        write_le(stored as u64, 8, sink);
        Ok(())
    }

    fn read(source: &mut Source) -> (r: CerealResult<i64>) {
        match read_le(source, 8) {
            Ok(value) => {
                proof {
                    lemma_radix_values();
                }
                let stored: u64 = value;
                let signed: i64 = #[verifier::truncate]
                (stored as i64);
                proof {
                    assert(signed as int == if stored < 0x8000_0000_0000_0000 {
                        stored as int
                    } else {
                        stored - 0x1_0000_0000_0000_0000
                    }) by (bit_vector)
                        requires
                            signed == stored as i64,
                    ;
                }
                Ok(signed)
            },
            Err(e) => Err(e),
        }
    }
}

/// One byte: 1 for `true`, 0 for `false`; any byte but 0 reads as `true`.
impl CerealData for bool {
    type Model = bool;

    open spec fn obeys_wire_rules() -> bool {
        true
    }

    open spec fn model(&self) -> bool {
        *self
    }

    open spec fn wire(&self) -> Seq<u8> {
        le_bytes(
            if *self {
                1
            } else {
                0
            },
            1,
        )
    }

    open spec fn parse(bytes: Seq<u8>) -> Result<(bool, nat), CerealError> {
        match parse_le(bytes, 1) {
            Ok((value, count)) => Ok((value != 0, count)),
            Err(e) => Err(e),
        }
    }

    fn write(&self, sink: &mut Vec<u8>) -> (r: CerealResult<()>) {
        let byte: u8 = if *self {
            1
        } else {
            0
        };
        byte.write(sink)
    }

    fn read(source: &mut Source) -> (r: CerealResult<bool>) {
        let ghost front = source.remaining();
        match u8::read(source) {
            Ok(byte) => {
                proof {
                    lemma_radix_values();
                    lemma_le_value_bound(front.take(1));
                }
                Ok(byte != 0)
            },
            Err(e) => Err(e),
        }
    }
}

/// Always eight bytes, whatever the width of an address on the machine.
/// A number read that the machine's `usize` cannot hold is an invalid encoding.
impl CerealData for usize {
    type Model = usize;

    open spec fn obeys_wire_rules() -> bool {
        true
    }

    open spec fn model(&self) -> usize {
        *self
    }

    open spec fn wire(&self) -> Seq<u8> {
        le_bytes(*self as nat, 8)
    }

    open spec fn parse(bytes: Seq<u8>) -> Result<(usize, nat), CerealError> {
        match parse_le(bytes, 8) {
            Ok((value, count)) => if value <= usize::MAX {
                Ok((value as usize, count))
            } else {
                Err(CerealError::InvalidEncoding)
            },
            Err(e) => Err(e),
        }
    }

    fn write(&self, sink: &mut Vec<u8>) -> (r: CerealResult<()>) {
        (*self as u64).write(sink)
    }

    fn read(source: &mut Source) -> (r: CerealResult<usize>) {
        proof {
            lemma_radix_values();
        }
        match read_le(source, 8) {
            Ok(value) => if value <= usize::MAX as u64 {
                Ok(value as usize)
            } else {
                Err(CerealError::InvalidEncoding)
            },
            Err(e) => Err(e),
        }
    }
}

/// Always eight bytes, two's complement, whatever the width of an address on the machine.
/// A number read that the machine's `isize` cannot hold is an invalid encoding.
impl CerealData for isize {
    type Model = isize;

    open spec fn obeys_wire_rules() -> bool {
        true
    }

    open spec fn model(&self) -> isize {
        *self
    }

    open spec fn wire(&self) -> Seq<u8> {
        le_bytes(to_unsigned(*self as int, 8), 8)
    }

    open spec fn parse(bytes: Seq<u8>) -> Result<(isize, nat), CerealError> {
        match parse_le(bytes, 8) {
            Ok((value, count)) => if isize::MIN <= to_signed(value, 8) <= isize::MAX {
                Ok((to_signed(value, 8) as isize, count))
            } else {
                Err(CerealError::InvalidEncoding)
            },
            Err(e) => Err(e),
        }
    }

    fn write(&self, sink: &mut Vec<u8>) -> (r: CerealResult<()>) {
        (*self as i64).write(sink)
    }

    fn read(source: &mut Source) -> (r: CerealResult<isize>) {
        let ghost front = source.remaining();
        proof {
            lemma_radix_values();
            lemma_le_value_bound(front.take(8));
        }
        match i64::read(source) {
            Ok(value) => if isize::MIN as i64 <= value && value <= isize::MAX as i64 {
                Ok(value as isize)
            } else {
                Err(CerealError::InvalidEncoding)
            },
            Err(e) => Err(e),
        }
    }
}

} // verus!
