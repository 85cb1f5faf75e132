use std::marker::PhantomData;

use cereal::variant::{read_variant, write_variant};
use cereal::wire::{read_le, write_le};
use cereal::{CerealData, CerealError, CerealResult, IoFailure, Source};

fn encode<T: CerealData>(value: &T) -> Vec<u8> {
    let mut sink: Vec<u8> = Vec::new();
    value.write(&mut sink).unwrap();
    sink
}

fn decode<T: CerealData>(bytes: &[u8]) -> (CerealResult<T>, usize) {
    let mut source = Source::new(bytes);
    let value = T::read(&mut source);
    (value, source.position())
}

fn eof<T>() -> CerealResult<T> {
    Err(CerealError::Io(IoFailure::UnexpectedEof))
}

#[derive(Debug, PartialEq)]
struct Small {
    a: u8,
    b: i8,
    c: u16,
}

impl CerealData for Small {
    type Model = ();

    fn write(&self, sink: &mut Vec<u8>) -> CerealResult<()> {
        self.a.write(sink)?;
        self.b.write(sink)?;
        self.c.write(sink)
    }

    fn read(source: &mut Source) -> CerealResult<Small> {
        Ok(Small { a: u8::read(source)?, b: i8::read(source)?, c: u16::read(source)? })
    }
}

#[derive(Debug, PartialEq)]
enum Choice {
    Nothing,
    Byte(u8),
}

impl CerealData for Choice {
    type Model = ();

    fn write(&self, sink: &mut Vec<u8>) -> CerealResult<()> {
        match self {
            Choice::Nothing => write_variant(0, sink),
            Choice::Byte(byte) => {
                write_variant(1, sink)?;
                byte.write(sink)
            }
        }
    }

    fn read(source: &mut Source) -> CerealResult<Choice> {
        match read_variant(source, 2)? {
            0 => Ok(Choice::Nothing),
            _ => Ok(Choice::Byte(u8::read(source)?)),
        }
    }
}

#[test]
fn small_struct_scenario() {
    let value = Small { a: 1, b: -2, c: 3 };
    let bytes = encode(&value);
    assert_eq!(bytes, vec![0x01, 0xFE, 0x03, 0x00]);
    assert_eq!(decode::<Small>(&bytes), (Ok(value), 4));
}

#[test]
fn optional_scenario() {
    assert_eq!(encode(&None::<u8>), vec![0x00]);
    assert_eq!(encode(&Some(7u8)), vec![0x01, 0x07]);
    assert_eq!(decode::<Option<u8>>(&[0x00]), (Ok(None), 1));
    assert_eq!(decode::<Option<u8>>(&[0x01, 0x07]), (Ok(Some(7)), 2));
}

#[test]
fn sum_type_scenario() {
    let bytes = encode(&Choice::Byte(9));
    assert_eq!(bytes, vec![0x01, 0x00, 0x00, 0x00, 0x00, 0x00, 0x00, 0x00, 0x09]);
    assert_eq!(decode::<Choice>(&bytes), (Ok(Choice::Byte(9)), 9));
    assert_eq!(encode(&Choice::Nothing), vec![0u8; 8]);
}

#[test]
fn unknown_variant_is_an_error() {
    assert_eq!(decode::<Choice>(&[2, 0, 0, 0, 0, 0, 0, 0, 9]).0, Err(CerealError::UnknownVariant));
    let mut source = Source::new(&[0, 1, 0, 0, 0, 0, 0, 0]);
    assert_eq!(read_variant(&mut source, 256), Err(CerealError::UnknownVariant));
    let mut source = Source::new(&[0, 1, 0, 0, 0, 0, 0, 0]);
    assert_eq!(read_variant(&mut source, 257), Ok(256));
    let mut source = Source::new(&[1, 0, 0, 0, 0, 0, 0, 0]);
    assert_eq!(read_variant(&mut source, 0), Err(CerealError::UnknownVariant));
    let mut source = Source::new(&[1, 0, 0]);
    assert_eq!(read_variant(&mut source, 2), eof());
}

#[test]
fn fixed_widths() {
    assert_eq!(encode(&0u8).len(), 1);
    assert_eq!(encode(&-1i8).len(), 1);
    assert_eq!(encode(&0u16).len(), 2);
    assert_eq!(encode(&i16::MIN).len(), 2);
    assert_eq!(encode(&0u32).len(), 4);
    assert_eq!(encode(&-1i32).len(), 4);
    assert_eq!(encode(&i32::MIN).len(), 4);
    assert_eq!(encode(&u64::MAX).len(), 8);
    assert_eq!(encode(&i64::MIN).len(), 8);
    assert_eq!(encode(&0usize).len(), 8);
    assert_eq!(encode(&-1isize).len(), 8);
    assert_eq!(encode(&true).len(), 1);
}

#[test]
fn little_endian_bytes() {
    assert_eq!(encode(&0x0102u16), vec![0x02, 0x01]);
    assert_eq!(encode(&0x0102_0304u32), vec![0x04, 0x03, 0x02, 0x01]);
    assert_eq!(encode(&0x0102_0304_0506_0708u64), vec![8, 7, 6, 5, 4, 3, 2, 1]);
    assert_eq!(encode(&-2i16), vec![0xFE, 0xFF]);
    assert_eq!(encode(&i32::MIN), vec![0x00, 0x00, 0x00, 0x80]);
    assert_eq!(encode(&i64::MAX), vec![0xFF, 0xFF, 0xFF, 0xFF, 0xFF, 0xFF, 0xFF, 0x7F]);
    assert_eq!(encode(&9usize), vec![9, 0, 0, 0, 0, 0, 0, 0]);
    assert_eq!(encode(&-10isize), vec![0xF6, 0xFF, 0xFF, 0xFF, 0xFF, 0xFF, 0xFF, 0xFF]);
    assert_eq!(decode::<u32>(&[0x04, 0x03, 0x02, 0x01, 0xAA]), (Ok(0x0102_0304), 4));
    assert_eq!(decode::<i8>(&[0x80]), (Ok(i8::MIN), 1));
    assert_eq!(decode::<i64>(&[0xFF; 8]), (Ok(-1), 8));
}

#[test]
fn numbers_round_trip_at_their_limits() {
    for value in [u8::MIN, 1, 0x7F, 0x80, u8::MAX] {
        assert_eq!(decode::<u8>(&encode(&value)), (Ok(value), 1));
    }
    for value in [i8::MIN, -1, 0, 1, i8::MAX] {
        assert_eq!(decode::<i8>(&encode(&value)), (Ok(value), 1));
    }
    for value in [u16::MIN, 0xFF, 0x100, u16::MAX] {
        assert_eq!(decode::<u16>(&encode(&value)), (Ok(value), 2));
    }
    for value in [i16::MIN, -1, 0, i16::MAX] {
        assert_eq!(decode::<i16>(&encode(&value)), (Ok(value), 2));
    }
    for value in [u32::MIN, 0xFFFF, 0x1_0000, u32::MAX] {
        assert_eq!(decode::<u32>(&encode(&value)), (Ok(value), 4));
    }
    for value in [i32::MIN, -1, 0, i32::MAX] {
        assert_eq!(decode::<i32>(&encode(&value)), (Ok(value), 4));
    }
    for value in [u64::MIN, 0xFFFF_FFFF, 0x1_0000_0000, u64::MAX] {
        assert_eq!(decode::<u64>(&encode(&value)), (Ok(value), 8));
    }
    for value in [i64::MIN, -1, 0, i64::MAX] {
        assert_eq!(decode::<i64>(&encode(&value)), (Ok(value), 8));
    }
    for value in [usize::MIN, 1, usize::MAX] {
        assert_eq!(decode::<usize>(&encode(&value)), (Ok(value), 8));
    }
    for value in [isize::MIN, -1, 0, isize::MAX] {
        assert_eq!(decode::<isize>(&encode(&value)), (Ok(value), 8));
    }
}

#[test]
fn boolean_is_one_canonical_byte() {
    assert_eq!(encode(&true), vec![1]);
    assert_eq!(encode(&false), vec![0]);
    assert_eq!(decode::<bool>(&[0]), (Ok(false), 1));
    assert_eq!(decode::<bool>(&[1]), (Ok(true), 1));
    assert_eq!(decode::<bool>(&[2]), (Ok(true), 1));
    assert_eq!(decode::<bool>(&[0xFF]), (Ok(true), 1));
    assert_eq!(decode::<bool>(&[]).0, eof());
}

#[test]
fn unit_takes_no_bytes() {
    assert_eq!(encode(&()), Vec::<u8>::new());
    assert_eq!(decode::<()>(&[]), (Ok(()), 0));
    assert_eq!(decode::<()>(&[1, 2, 3]), (Ok(()), 0));
    assert_eq!(encode(&PhantomData::<u64>), Vec::<u8>::new());
    assert_eq!(decode::<PhantomData<u64>>(&[7]), (Ok(PhantomData), 0));
}

#[test]
fn products_are_concatenations() {
    assert_eq!(encode(&(1u8, 0x0203u16)), vec![1, 3, 2]);
    assert_eq!(decode::<(u8, u16)>(&[1, 3, 2, 9]), (Ok((1, 0x0203)), 3));
    assert_eq!(encode(&[0x0102u16, 0x0304u16]), vec![2, 1, 4, 3]);
    assert_eq!(decode::<[u16; 2]>(&[2, 1, 4, 3]), (Ok([0x0102, 0x0304]), 4));
    assert_eq!(encode(&Box::new(0x0102u16)), vec![2, 1]);
    assert_eq!(decode::<Box<u16>>(&[2, 1]), (Ok(Box::new(0x0102)), 2));
    assert_eq!(decode::<(u8, u16)>(&[1, 3]).0, eof());
    assert_eq!(decode::<[u16; 2]>(&[2, 1, 4]).0, eof());
}

#[test]
fn sequences_are_count_then_items() {
    assert_eq!(encode(&Vec::<u32>::new()), vec![0u8; 8]);
    assert_eq!(
        encode(&vec![0x0102u16, 0x0304, 0x0506]),
        vec![3, 0, 0, 0, 0, 0, 0, 0, 2, 1, 4, 3, 6, 5]
    );
    let nested = vec![vec![1u8], vec![], vec![2, 3]];
    let bytes = encode(&nested);
    assert_eq!(bytes.len(), 8 + (8 + 1) + 8 + (8 + 2));
    assert_eq!(decode::<Vec<Vec<u8>>>(&bytes), (Ok(nested), bytes.len()));
    assert_eq!(decode::<Vec<u32>>(&[0u8; 8]), (Ok(vec![]), 8));
    let units = vec![(), (), ()];
    assert_eq!(encode(&units), vec![3, 0, 0, 0, 0, 0, 0, 0]);
    assert_eq!(decode::<Vec<()>>(&encode(&units)), (Ok(units), 8));
}

#[test]
fn short_sequences_are_short_reads() {
    let bytes = encode(&vec![1u16, 2, 3]);
    for cut in 0..bytes.len() {
        assert_eq!(decode::<Vec<u16>>(&bytes[..cut]).0, eof());
    }
    assert_eq!(decode::<Vec<u8>>(&[0xFF; 8]).0, eof());
    assert_eq!(decode::<Vec<u64>>(&[0xFF, 0xFF, 0xFF, 0xFF, 0xFF, 0xFF, 0xFF, 0x7F, 1, 2]).0, eof());
}

#[test]
fn optional_values() {
    assert_eq!(encode(&Some(0x0102u16)), vec![1, 2, 1]);
    assert_eq!(encode(&Some(Some(5u8))), vec![1, 1, 5]);
    assert_eq!(encode(&Some(None::<u8>)), vec![1, 0]);
    assert_eq!(decode::<Option<u16>>(&[0, 9, 9]), (Ok(None), 1));
    assert_eq!(decode::<Option<u16>>(&[3, 2, 1]), (Ok(Some(0x0102)), 3));
    assert_eq!(decode::<Option<u16>>(&[1, 2]).0, eof());
    assert_eq!(decode::<Option<u16>>(&[]).0, eof());
}

#[test]
fn text_is_counted_utf8() {
    assert_eq!(encode(&String::new()), vec![0u8; 8]);
    assert_eq!(encode(&"hi".to_string()), vec![2, 0, 0, 0, 0, 0, 0, 0, b'h', b'i']);
    let text = "h\u{e9}llo \u{4e16}\u{754c} \u{1f600}".to_string();
    let bytes = encode(&text);
    assert_eq!(bytes.len(), 8 + text.len());
    assert_eq!(&bytes[8..], text.as_bytes());
    assert_eq!(decode::<String>(&bytes), (Ok(text), bytes.len()));
}

#[test]
fn malformed_text_is_an_invalid_encoding() {
    assert_eq!(
        decode::<String>(&[2, 0, 0, 0, 0, 0, 0, 0, 0xC3, 0x28]).0,
        Err(CerealError::InvalidEncoding)
    );
    assert_eq!(
        decode::<String>(&[1, 0, 0, 0, 0, 0, 0, 0, 0xFF]).0,
        Err(CerealError::InvalidEncoding)
    );
    assert_eq!(decode::<String>(&[2, 0, 0, 0, 0, 0, 0, 0, 0xC3]).0, eof());
    assert_eq!(decode::<String>(&[2, 0, 0, 0]).0, eof());
}

#[test]
fn source_keeps_its_place() {
    let bytes = [1u8, 2, 3, 4, 5];
    let mut source = Source::new(&bytes);
    assert_eq!(source.position(), 0);
    assert_eq!(source.remaining_len(), 5);
    assert_eq!(source.take(1), Ok(&bytes[0..1]));
    assert_eq!(source.take(3), Ok(&bytes[1..4]));
    assert_eq!(source.position(), 4);
    assert_eq!(source.take(2), eof());
    assert_eq!(source.position(), 4);
    assert_eq!(source.take(0), Ok(&bytes[4..4]));
    assert_eq!(source.take(1), Ok(&bytes[4..5]));
    assert_eq!(source.take(1), eof());
    assert_eq!(source.remaining_len(), 0);
    let mut empty = Source::new(&[]);
    assert_eq!(empty.take(0), Ok(&bytes[0..0]));
    assert_eq!(empty.take(1), eof());
}

#[test]
fn numbers_of_any_width() {
    let mut sink: Vec<u8> = vec![0xAA];
    write_le(0x0102_0304_0506_0708, 3, &mut sink);
    assert_eq!(sink, vec![0xAA, 0x08, 0x07, 0x06]);
    write_le(0x0102, 0, &mut sink);
    assert_eq!(sink.len(), 4);
    let mut source = Source::new(&sink);
    assert_eq!(read_le(&mut source, 0), Ok(0));
    assert_eq!(read_le(&mut source, 4), Ok(0x0607_08AA));
    assert_eq!(read_le(&mut source, 1), eof());
    let bytes = [0xFFu8; 8];
    let mut source = Source::new(&bytes);
    assert_eq!(read_le(&mut source, 8), Ok(u64::MAX));
}

#[test]
fn values_follow_one_another_in_a_stream() {
    let mut sink: Vec<u8> = Vec::new();
    7u8.write(&mut sink).unwrap();
    vec![Some(1u16), None].write(&mut sink).unwrap();
    "ok".to_string().write(&mut sink).unwrap();
    (-1i32).write(&mut sink).unwrap();
    let mut source = Source::new(&sink);
    assert_eq!(u8::read(&mut source), Ok(7));
    assert_eq!(Vec::<Option<u16>>::read(&mut source), Ok(vec![Some(1), None]));
    assert_eq!(String::read(&mut source), Ok("ok".to_string()));
    assert_eq!(i32::read(&mut source), Ok(-1));
    assert_eq!(source.remaining_len(), 0);
}

#[derive(Debug, PartialEq)]
struct Stubborn(u8);

impl CerealData for Stubborn {
    type Model = ();

    fn write(&self, sink: &mut Vec<u8>) -> CerealResult<()> {
        if self.0 == 0 {
            Err(CerealError::Other("zero cannot be written".to_string()))
        } else {
            self.0.write(sink)
        }
    }

    fn read(source: &mut Source) -> CerealResult<Stubborn> {
        match u8::read(source)? {
            0 => Err(CerealError::Other("zero cannot be read".to_string())),
            byte => Ok(Stubborn(byte)),
        }
    }
}

#[test]
fn first_error_of_a_part_is_the_error_of_the_whole() {
    let refused: CerealResult<()> = Err(CerealError::Other("zero cannot be written".to_string()));
    let mut sink: Vec<u8> = Vec::new();
    assert_eq!(vec![Stubborn(1), Stubborn(0), Stubborn(2)].write(&mut sink), refused);
    assert_eq!(sink, vec![3, 0, 0, 0, 0, 0, 0, 0, 1]);
    let mut sink: Vec<u8> = Vec::new();
    assert_eq!((Stubborn(0), 5u8).write(&mut sink), refused);
    assert_eq!(sink, Vec::<u8>::new());
    let mut sink: Vec<u8> = Vec::new();
    assert_eq!([Stubborn(4), Stubborn(0)].write(&mut sink), refused);
    assert_eq!(Some(Stubborn(0)).write(&mut sink), refused);
    assert_eq!(Box::new(Stubborn(0)).write(&mut sink), refused);

    let rejected = CerealError::Other("zero cannot be read".to_string());
    assert_eq!(decode::<Vec<Stubborn>>(&[2, 0, 0, 0, 0, 0, 0, 0, 7, 0]).0.unwrap_err(), rejected);
    assert_eq!(decode::<(Stubborn, u8)>(&[0, 1]).0.unwrap_err(), rejected);
    assert_eq!(decode::<[Stubborn; 2]>(&[1, 0]).0.unwrap_err(), rejected);
    assert_eq!(decode::<Option<Stubborn>>(&[1, 0]).0.unwrap_err(), rejected);
    assert_eq!(decode::<Box<Stubborn>>(&[0]).0.unwrap_err(), rejected);
    assert_eq!(decode::<Option<Stubborn>>(&[0, 0]), (Ok(None), 1));
    assert_eq!(decode::<Vec<Stubborn>>(&[1, 0, 0, 0, 0, 0, 0, 0, 7]), (Ok(vec![Stubborn(7)]), 9));
}

#[test]
fn index_is_compared_as_the_eight_byte_number_it_is() {
    let wide = [1u8, 0, 0, 0, 1, 0, 0, 0, 9];
    assert_eq!(decode::<Choice>(&wide).0, Err(CerealError::UnknownVariant));
    let mut source = Source::new(&wide);
    assert_eq!(read_variant(&mut source, 2), Err(CerealError::UnknownVariant));
    let mut source = Source::new(&[0u8, 0, 0, 0, 0, 0, 0, 0x80]);
    assert_eq!(read_variant(&mut source, 1 << 31), Err(CerealError::UnknownVariant));
    let mut source = Source::new(&[0xFFu8, 0xFF, 0xFF, 0xFF, 0xFF, 0xFF, 0xFF, 0xFF]);
    assert_eq!(read_variant(&mut source, usize::MAX), Err(CerealError::UnknownVariant));
}

#[test]
fn count_is_compared_as_the_eight_byte_number_it_is() {
    let wide = [0u8, 0, 0, 0, 1, 0, 0, 0];
    assert_eq!(decode::<Vec<u8>>(&wide).0, eof());
    assert_eq!(decode::<String>(&wide).0, eof());
    assert_eq!(decode::<Vec<Option<u16>>>(&[1, 0, 0, 0, 0, 0, 0, 0x80, 1]).0, eof());
}
