use std::fmt::Debug;

use cereal::variant::{read_variant, write_variant};
use cereal::{CerealData, CerealError, CerealResult, Source};

#[derive(Debug, PartialEq)]
struct TestStruct {
    a: u8,
    b: i8,
    c: u16,
    d: i16,
    e: u32,
    f: i32,
    g: u64,
    h: i64,
    i: usize,
    j: isize,
}

impl CerealData for TestStruct {
    type Model = ();

    fn write(&self, sink: &mut Vec<u8>) -> CerealResult<()> {
        self.a.write(sink)?;
        self.b.write(sink)?;
        self.c.write(sink)?;
        self.d.write(sink)?;
        self.e.write(sink)?;
        self.f.write(sink)?;
        self.g.write(sink)?;
        self.h.write(sink)?;
        self.i.write(sink)?;
        self.j.write(sink)?;
        Ok(())
    }

    fn read(source: &mut Source) -> CerealResult<TestStruct> {
        Ok(TestStruct {
            a: CerealData::read(source)?,
            b: CerealData::read(source)?,
            c: CerealData::read(source)?,
            d: CerealData::read(source)?,
            e: CerealData::read(source)?,
            f: CerealData::read(source)?,
            g: CerealData::read(source)?,
            h: CerealData::read(source)?,
            i: CerealData::read(source)?,
            j: CerealData::read(source)?,
        })
    }
}

#[derive(Debug, PartialEq)]
struct TestTupleStruct(TestStruct, TestUnitStruct);

impl CerealData for TestTupleStruct {
    type Model = ();

    fn write(&self, sink: &mut Vec<u8>) -> CerealResult<()> {
        self.0.write(sink)?;
        self.1.write(sink)?;
        Ok(())
    }

    fn read(source: &mut Source) -> CerealResult<TestTupleStruct> {
        Ok(TestTupleStruct(CerealData::read(source)?, CerealData::read(source)?))
    }
}

#[derive(Debug, PartialEq)]
struct TestUnitStruct;

impl CerealData for TestUnitStruct {
    type Model = ();

    fn write(&self, _: &mut Vec<u8>) -> CerealResult<()> {
        Ok(())
    }

    fn read(_: &mut Source) -> CerealResult<TestUnitStruct> {
        Ok(TestUnitStruct)
    }
}

#[derive(Debug, PartialEq)]
enum TestEnum {
    UnitVariant1,
    TupleVariant1(TestUnitStruct, TestStruct),
    UnitVariant2,
    TupleVariant2(TestTupleStruct, usize),
    StructVariant1 { a: usize, nested: Box<TestEnum> },
}

impl CerealData for TestEnum {
    type Model = ();

    fn write(&self, sink: &mut Vec<u8>) -> CerealResult<()> {
        match self {
            TestEnum::UnitVariant1 => {
                write_variant(0, sink)?;
            }
            TestEnum::TupleVariant1(first, second) => {
                write_variant(1, sink)?;
                first.write(sink)?;
                second.write(sink)?;
            }
            TestEnum::UnitVariant2 => {
                write_variant(2, sink)?;
            }
            TestEnum::TupleVariant2(first, second) => {
                write_variant(3, sink)?;
                first.write(sink)?;
                second.write(sink)?;
            }
            TestEnum::StructVariant1 { a, nested } => {
                write_variant(4, sink)?;
                a.write(sink)?;
                nested.write(sink)?;
            }
        }
        Ok(())
    }

    fn read(source: &mut Source) -> CerealResult<TestEnum> {
        Ok(match read_variant(source, 5)? {
            0 => TestEnum::UnitVariant1,
            1 => TestEnum::TupleVariant1(CerealData::read(source)?, CerealData::read(source)?),
            2 => TestEnum::UnitVariant2,
            3 => TestEnum::TupleVariant2(CerealData::read(source)?, CerealData::read(source)?),
            4 => TestEnum::StructVariant1 {
                a: CerealData::read(source)?,
                nested: CerealData::read(source)?,
            },
            _ => return Err(CerealError::UnknownVariant),
        })
    }
}

fn sample() -> TestStruct {
    TestStruct { a: 1, b: -2, c: 3, d: -4, e: 5, f: -6, g: 7, h: -8, i: 9, j: -10 }
}

#[test]
fn test_primitives() {
    let test = TestStruct {
        a: 1,
        b: -2,
        c: 3,
        d: -4,
        e: 5,
        f: -6,
        g: 7,
        h: -8,
        i: 9,
        j: -10,
    };
    test_eq(&test);
}

#[test]
fn test_tuple_struct() {
    let test = TestTupleStruct(
        TestStruct {
            a: 1,
            b: -2,
            c: 3,
            d: -4,
            e: 5,
            f: -6,
            g: 7,
            h: -8,
            i: 9,
            j: -10,
        },
        TestUnitStruct,
    );
    test_eq(&test);
}

#[test]
fn test_unit_struct() {
    test_eq(&TestUnitStruct);
}

#[test]
fn test_enum() {
    test_eq(&TestEnum::UnitVariant1);
    test_eq(&TestEnum::UnitVariant2);
    test_eq(&TestEnum::TupleVariant1(
        TestUnitStruct,
        TestStruct {
            a: 1,
            b: -2,
            c: 3,
            d: -4,
            e: 5,
            f: -6,
            g: 7,
            h: -8,
            i: 9,
            j: -10,
        },
    ));
    let test = TestEnum::TupleVariant2(
        TestTupleStruct(
            TestStruct {
                a: 1,
                b: -2,
                c: 3,
                d: -4,
                e: 5,
                f: -6,
                g: 7,
                h: -8,
                i: 9,
                j: -10,
            },
            TestUnitStruct,
        ),
        11,
    );
    test_eq(&test);
    test_eq_unsized(&TestEnum::StructVariant1 { a: 11, nested: Box::new(test) })
}

fn test_eq<T>(old: &T)
where
    T: Debug + PartialEq + CerealData,
{
    let mut vec: Vec<u8> = Vec::new();
    old.write(&mut vec).unwrap();

    let mut store = Source::new(&vec);

    let new = T::read(&mut store).unwrap();
    assert_eq!(*old, new);
    assert_eq!(store.position(), vec.len());
}

fn test_eq_unsized<T>(old: &T)
where
    T: Debug + PartialEq + CerealData,
{
    let mut vec: Vec<u8> = Vec::new();
    old.write(&mut vec).unwrap();

    let mut store = Source::new(&vec);

    let new = T::read(&mut store).unwrap();
    assert_eq!(*old, new);
    assert_eq!(store.remaining_len(), 0);
}

#[test]
fn struct_fields_are_written_in_declared_order() {
    let mut sink: Vec<u8> = Vec::new();
    sample().write(&mut sink).unwrap();
    assert_eq!(sink.len(), 1 + 1 + 2 + 2 + 4 + 4 + 8 + 8 + 8 + 8);
    assert_eq!(&sink[..4], &[0x01, 0xFE, 0x03, 0x00]);
    assert_eq!(&sink[4..6], &[0xFC, 0xFF]);
    assert_eq!(&sink[6..10], &[0x05, 0x00, 0x00, 0x00]);
    assert_eq!(&sink[10..14], &[0xFA, 0xFF, 0xFF, 0xFF]);
    assert_eq!(&sink[38..], &[0xF6, 0xFF, 0xFF, 0xFF, 0xFF, 0xFF, 0xFF, 0xFF]);
}

#[test]
fn enum_variant_is_index_then_fields() {
    let mut sink: Vec<u8> = Vec::new();
    TestEnum::TupleVariant2(TestTupleStruct(sample(), TestUnitStruct), 11).write(&mut sink).unwrap();
    assert_eq!(&sink[..8], &[3, 0, 0, 0, 0, 0, 0, 0]);
    assert_eq!(sink.len(), 8 + 46 + 8);
    assert_eq!(&sink[54..], &[11, 0, 0, 0, 0, 0, 0, 0]);
}

#[test]
fn enum_with_unknown_index_is_rejected() {
    let bytes = vec![5u8, 0, 0, 0, 0, 0, 0, 0];
    let mut source = Source::new(&bytes);
    assert_eq!(TestEnum::read(&mut source), Err(CerealError::UnknownVariant));
    let bytes = vec![0xFFu8; 8];
    let mut source = Source::new(&bytes);
    assert_eq!(TestEnum::read(&mut source), Err(CerealError::UnknownVariant));
}

#[test]
fn truncated_struct_is_a_short_read() {
    let mut sink: Vec<u8> = Vec::new();
    sample().write(&mut sink).unwrap();
    for cut in 0..sink.len() {
        let mut source = Source::new(&sink[..cut]);
        assert_eq!(
            TestStruct::read(&mut source),
            Err(CerealError::Io(cereal::IoFailure::UnexpectedEof))
        );
    }
}
