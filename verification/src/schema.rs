use vstd::prelude::*;
use crate::codec::CerealData;
use crate::error::{CerealError, CerealResult, IoFailure, end_of_stream};
use crate::source::Source;
use crate::sequence::after_items;
use crate::variant::{parse_variant, read_variant, write_variant};
use crate::wire::{parse_count, read_count, wire_count};

verus! {

/// A fixed-width kind of value.
#[derive(Debug, Clone, Copy, PartialEq, Eq, Structural)]
pub enum Kind {
    U8,
    I8,
    U16,
    I16,
    U32,
    I32,
    U64,
    I64,
    Usize,
    Isize,
    Bool,
}

/// A value of a fixed-width kind.
#[derive(Debug, Clone, Copy, PartialEq, Eq, Structural)]
pub enum Primitive {
    U8(u8),
    I8(i8),
    U16(u16),
    I16(i16),
    U32(u32),
    I32(i32),
    U64(u64),
    I64(i64),
    Usize(usize),
    Isize(isize),
    Bool(bool),
}

/// What a type looks like, as far as its encoding goes: its fields in declared order, or
/// its variants in declared order, each with its fields.
///
/// Whether fields have names makes no difference to the bytes, and a map is written as a
/// sequence of structs of a key and a value. A type that holds itself is an enum with a
/// field that is `Enclosing`: the field's shape is the enum that it stands in, or one
/// further out.
#[derive(Debug, PartialEq, Eq)]
pub enum Shape {
    Primitive(Kind),
    Text,
    Optional(Box<Shape>),
    Sequence(Box<Shape>),
    Struct(Vec<Shape>),
    Enum(Vec<Vec<Shape>>),
    /// The enum that this shape stands in: 0 is the nearest, 1 the one that the nearest
    /// stands in, and so on.
    Enclosing(usize),
}

/// A value of any shape: what `read_body` gives and `write_body` takes.
#[derive(Debug, PartialEq, Eq)]
pub enum Value {
    Primitive(Primitive),
    Text(String),
    Optional(Option<Box<Value>>),
    Sequence(Vec<Value>),
    Struct(Vec<Value>),
    Enum(usize, Vec<Value>),
}

/// What a `Value` stands for: the same tree, of sequences in place of vectors.
pub enum Tree {
    Primitive(Primitive),
    Text(Seq<char>),
    Optional(Option<Box<Tree>>),
    Sequence(Seq<Tree>),
    Struct(Seq<Tree>),
    Enum(nat, Seq<Tree>),
}

/// The bytes of `value`, as those of the number or `bool` that it holds.
pub open spec fn primitive_wire(value: Primitive) -> Seq<u8> {
    match value {
        Primitive::U8(x) => x.wire(),
        Primitive::I8(x) => x.wire(),
        Primitive::U16(x) => x.wire(),
        Primitive::I16(x) => x.wire(),
        Primitive::U32(x) => x.wire(),
        Primitive::I32(x) => x.wire(),
        Primitive::U64(x) => x.wire(),
        Primitive::I64(x) => x.wire(),
        Primitive::Usize(x) => x.wire(),
        Primitive::Isize(x) => x.wire(),
        Primitive::Bool(x) => x.wire(),
    }
}

/// The kind of `value`.
pub open spec fn kind_of(value: Primitive) -> Kind {
    match value {
        Primitive::U8(_) => Kind::U8,
        Primitive::I8(_) => Kind::I8,
        Primitive::U16(_) => Kind::U16,
        Primitive::I16(_) => Kind::I16,
        Primitive::U32(_) => Kind::U32,
        Primitive::I32(_) => Kind::I32,
        Primitive::U64(_) => Kind::U64,
        Primitive::I64(_) => Kind::I64,
        Primitive::Usize(_) => Kind::Usize,
        Primitive::Isize(_) => Kind::Isize,
        Primitive::Bool(_) => Kind::Bool,
    }
}

/// Whether `value` is a value of `shape`, where `shape` stands in the enums `around`, the
/// nearest first: a struct with a value of each field's shape, an enum with the index of
/// one of the variants and a value of each of that variant's fields.
pub open spec fn conforms_within(value: Value, shape: Shape, around: Seq<Vec<Vec<Shape>>>) -> bool
    decreases value,
{
    match (value, shape) {
        (Value::Primitive(value), Shape::Primitive(kind)) => kind_of(value) == kind,
        (Value::Text(_), Shape::Text) => true,
        (Value::Optional(None), Shape::Optional(_)) => true,
        (Value::Optional(Some(inner)), Shape::Optional(shape)) => conforms_within(
            *inner,
            *shape,
            around,
        ),
        (Value::Sequence(items), Shape::Sequence(shape)) => forall|i: int|
            0 <= i < items@.len() ==> conforms_within(#[trigger] items@[i], *shape, around),
        (Value::Struct(fields), Shape::Struct(shapes)) => all_conform(fields@, shapes@, around),
        (Value::Enum(index, fields), Shape::Enum(variants)) => index < variants@.len()
            && all_conform(fields@, variants@[index as int]@, seq![variants] + around),
        (Value::Enum(index, fields), Shape::Enclosing(level)) => level < around.len() && index
            < around[level as int]@.len() && all_conform(
            fields@,
            around[level as int]@[index as int]@,
            around.skip(level as int),
        ),
        _ => false,
    }
}

/// Whether `values` are as many as `shapes`, each a value of the shape at its place.
pub open spec fn all_conform(
    values: Seq<Value>,
    shapes: Seq<Shape>,
    around: Seq<Vec<Vec<Shape>>>,
) -> bool
    decreases values,
{
    values.len() == shapes.len() && forall|i: int|
        0 <= i < values.len() ==> conforms_within(#[trigger] values[i], shapes[i], around)
}

/// Whether `value` is a value of `shape`.
pub open spec fn conforms(value: Value, shape: Shape) -> bool {
    conforms_within(value, shape, Seq::empty())
}

/// What `value` stands for.
pub open spec fn tree_of(value: Value) -> Tree
    decreases value,
{
    match value {
        Value::Primitive(p) => Tree::Primitive(p),
        Value::Text(text) => Tree::Text(text@),
        Value::Optional(None) => Tree::Optional(None),
        Value::Optional(Some(inner)) => Tree::Optional(Some(Box::new(tree_of(*inner)))),
        Value::Sequence(items) => Tree::Sequence(trees_of(items@)),
        Value::Struct(fields) => Tree::Struct(trees_of(fields@)),
        Value::Enum(index, fields) => Tree::Enum(index as nat, trees_of(fields@)),
    }
}

/// What each of `values` stands for, in order.
pub open spec fn trees_of(values: Seq<Value>) -> Seq<Tree>
    decreases values,
{
    Seq::new(
        values.len(),
        |i: int|
            if 0 <= i < values.len() {
                tree_of(values[i])
            } else {
                Tree::Struct(Seq::empty())
            },
    )
}

/// The bytes of `value`.
pub open spec fn value_wire(value: Value) -> Seq<u8>
    decreases value, 0nat,
{
    match value {
        Value::Primitive(p) => primitive_wire(p),
        Value::Text(text) => text.wire(),
        Value::Optional(None) => false.wire(),
        Value::Optional(Some(inner)) => true.wire() + value_wire(*inner),
        Value::Sequence(items) => wire_count(items@.len()) + values_wire(items@, 0),
        Value::Struct(fields) => values_wire(fields@, 0),
        Value::Enum(index, fields) => wire_count(index as nat) + values_wire(fields@, 0),
    }
}

/// The bytes of the values from `from` on, one after the other.
pub open spec fn values_wire(values: Seq<Value>, from: nat) -> Seq<u8>
    decreases values, values.len() - from,
{
    if from >= values.len() {
        Seq::empty()
    } else {
        value_wire(values[from as int]) + values_wire(values, from + 1)
    }
}

/// What reading a value of `kind` from the front of `bytes` gives.
pub open spec fn parse_primitive(kind: Kind, bytes: Seq<u8>) -> Result<(Primitive, nat), CerealError> {
    match kind {
        Kind::U8 => match u8::parse(bytes) {
            Ok((x, used)) => Ok((Primitive::U8(x), used)),
            Err(e) => Err(e),
        },
        Kind::I8 => match i8::parse(bytes) {
            Ok((x, used)) => Ok((Primitive::I8(x), used)),
            Err(e) => Err(e),
        },
        Kind::U16 => match u16::parse(bytes) {
            Ok((x, used)) => Ok((Primitive::U16(x), used)),
            Err(e) => Err(e),
        },
        Kind::I16 => match i16::parse(bytes) {
            Ok((x, used)) => Ok((Primitive::I16(x), used)),
            Err(e) => Err(e),
        },
        Kind::U32 => match u32::parse(bytes) {
            Ok((x, used)) => Ok((Primitive::U32(x), used)),
            Err(e) => Err(e),
        },
        Kind::I32 => match i32::parse(bytes) {
            Ok((x, used)) => Ok((Primitive::I32(x), used)),
            Err(e) => Err(e),
        },
        Kind::U64 => match u64::parse(bytes) {
            Ok((x, used)) => Ok((Primitive::U64(x), used)),
            Err(e) => Err(e),
        },
        Kind::I64 => match i64::parse(bytes) {
            Ok((x, used)) => Ok((Primitive::I64(x), used)),
            Err(e) => Err(e),
        },
        Kind::Usize => match usize::parse(bytes) {
            Ok((x, used)) => Ok((Primitive::Usize(x), used)),
            Err(e) => Err(e),
        },
        Kind::Isize => match isize::parse(bytes) {
            Ok((x, used)) => Ok((Primitive::Isize(x), used)),
            Err(e) => Err(e),
        },
        Kind::Bool => match bool::parse(bytes) {
            Ok((x, used)) => Ok((Primitive::Bool(x), used)),
            Err(e) => Err(e),
        },
    }
}

/// What reading a value of `shape` from the front of `bytes` gives: what the value stands
/// for and the number of bytes it took, or the error of the first part that failed.
pub open spec fn parse_body(shape: Shape, bytes: Seq<u8>) -> Result<(Tree, nat), CerealError> {
    parse_within(shape, Seq::empty(), bytes, bytes.len())
}

/// What reading a value of `shape` gives where `shape` stands in the enums `around`, the
/// nearest first. An enum is entered from an `Enclosing` field at most `budget` times:
/// each such enum takes eight bytes for its index, so that no more than there are bytes
/// can be entered before the bytes run out.
pub open spec fn parse_within(
    shape: Shape,
    around: Seq<Vec<Vec<Shape>>>,
    bytes: Seq<u8>,
    budget: nat,
) -> Result<(Tree, nat), CerealError>
    decreases budget, shape, 0nat, 0nat,
{
    match shape {
        Shape::Primitive(kind) => match parse_primitive(kind, bytes) {
            Ok((value, used)) => Ok((Tree::Primitive(value), used)),
            Err(e) => Err(e),
        },
        Shape::Text => match String::parse(bytes) {
            Ok((text, used)) => Ok((Tree::Text(text), used)),
            Err(e) => Err(e),
        },
        Shape::Optional(inner) => match bool::parse(bytes) {
            Ok((present, used)) => if present {
                match parse_within(*inner, around, bytes.skip(used as int), budget) {
                    Ok((value, more)) => Ok((Tree::Optional(Some(Box::new(value))), used + more)),
                    Err(e) => Err(e),
                }
            } else {
                Ok((Tree::Optional(None), used))
            },
            Err(e) => Err(e),
        },
        Shape::Sequence(inner) => match parse_count(bytes) {
            Ok((count, used)) => match parse_repeat(
                *inner,
                around,
                bytes.skip(used as int),
                count,
                budget,
            ) {
                Ok((items, more)) => Ok((Tree::Sequence(items), used + more)),
                Err(e) => Err(e),
            },
            Err(e) => Err(e),
        },
        Shape::Struct(fields) => match parse_fields(fields@, around, 0, bytes, budget) {
            Ok((values, used)) => Ok((Tree::Struct(values), used)),
            Err(e) => Err(e),
        },
        Shape::Enum(variants) => parse_enum(variants, around, bytes, budget),
        Shape::Enclosing(level) => if level >= around.len() {
            Err(CerealError::InvalidEncoding)
        } else if budget == 0 {
            Err(end_of_stream())
        } else {
            parse_enum(
                around[level as int],
                around.skip(level + 1),
                bytes,
                (budget - 1) as nat,
            )
        },
    }
}

/// What reading a value of the enum with `variants` gives: the index of one of them, then
/// that variant's fields. An index that names none is `UnknownVariant`.
pub open spec fn parse_enum(
    variants: Vec<Vec<Shape>>,
    around: Seq<Vec<Vec<Shape>>>,
    bytes: Seq<u8>,
    budget: nat,
) -> Result<(Tree, nat), CerealError>
    decreases budget, variants, 0nat, 0nat,
{
    match parse_variant(bytes, variants@.len()) {
        Ok((index, used)) => match parse_fields(
            variants@[index as int]@,
            seq![variants] + around,
            0,
            bytes.skip(used as int),
            budget,
        ) {
            Ok((values, more)) => Ok((Tree::Enum(index, values), used + more)),
            Err(e) => Err(e),
        },
        Err(e) => Err(e),
    }
}

/// What reading `count` values of `shape`, one after the other, gives.
pub open spec fn parse_repeat(
    shape: Shape,
    around: Seq<Vec<Vec<Shape>>>,
    bytes: Seq<u8>,
    count: nat,
    budget: nat,
) -> Result<(Seq<Tree>, nat), CerealError>
    decreases budget, shape, 1nat, count,
{
    if count == 0 {
        Ok((Seq::empty(), 0))
    } else {
        match parse_within(shape, around, bytes, budget) {
            Ok((first, used)) => after_items(
                seq![first],
                used,
                parse_repeat(shape, around, bytes.skip(used as int), (count - 1) as nat, budget),
            ),
            Err(e) => Err(e),
        }
    }
}

/// What reading one value of each of `shapes` from `from` on, in order, gives.
pub open spec fn parse_fields(
    shapes: Seq<Shape>,
    around: Seq<Vec<Vec<Shape>>>,
    from: nat,
    bytes: Seq<u8>,
    budget: nat,
) -> Result<(Seq<Tree>, nat), CerealError>
    decreases budget, shapes, shapes.len() - from,
{
    if from >= shapes.len() {
        Ok((Seq::empty(), 0))
    } else {
        match parse_within(shapes[from as int], around, bytes, budget) {
            Ok((first, used)) => after_items(
                seq![first],
                used,
                parse_fields(shapes, around, from + 1, bytes.skip(used as int), budget),
            ),
            Err(e) => Err(e),
        }
    }
}

/// Writes a number or a `bool`.
pub fn write_primitive(value: &Primitive, sink: &mut Vec<u8>) -> (r: CerealResult<()>)
    ensures
        r is Ok,
        final(sink)@ == old(sink)@ + primitive_wire(*value),
{
    match value {
        Primitive::U8(x) => x.write(sink),
        Primitive::I8(x) => x.write(sink),
        Primitive::U16(x) => x.write(sink),
        Primitive::I16(x) => x.write(sink),
        Primitive::U32(x) => x.write(sink),
        Primitive::I32(x) => x.write(sink),
        Primitive::U64(x) => x.write(sink),
        Primitive::I64(x) => x.write(sink),
        Primitive::Usize(x) => x.write(sink),
        Primitive::Isize(x) => x.write(sink),
        Primitive::Bool(x) => x.write(sink),
    }
}

/// Reads a number or a `bool` of `kind`.
pub fn read_primitive(kind: Kind, source: &mut Source) -> (r: CerealResult<Primitive>)
    ensures
        final(source).bytes() == old(source).bytes(),
        match parse_primitive(kind, old(source).remaining()) {
            Ok((value, used)) => r == Ok::<Primitive, CerealError>(value) && final(source).consumed()
                == old(source).consumed() + used,
            Err(e) => r == Err::<Primitive, CerealError>(e),
        },
{
    match kind {
        Kind::U8 => match u8::read(source) {
            Ok(x) => Ok(Primitive::U8(x)),
            Err(e) => Err(e),
        },
        Kind::I8 => match i8::read(source) {
            Ok(x) => Ok(Primitive::I8(x)),
            Err(e) => Err(e),
        },
        Kind::U16 => match u16::read(source) {
            Ok(x) => Ok(Primitive::U16(x)),
            Err(e) => Err(e),
        },
        Kind::I16 => match i16::read(source) {
            Ok(x) => Ok(Primitive::I16(x)),
            Err(e) => Err(e),
        },
        Kind::U32 => match u32::read(source) {
            Ok(x) => Ok(Primitive::U32(x)),
            Err(e) => Err(e),
        },
        Kind::I32 => match i32::read(source) {
            Ok(x) => Ok(Primitive::I32(x)),
            Err(e) => Err(e),
        },
        Kind::U64 => match u64::read(source) {
            Ok(x) => Ok(Primitive::U64(x)),
            Err(e) => Err(e),
        },
        Kind::I64 => match i64::read(source) {
            Ok(x) => Ok(Primitive::I64(x)),
            Err(e) => Err(e),
        },
        Kind::Usize => match usize::read(source) {
            Ok(x) => Ok(Primitive::Usize(x)),
            Err(e) => Err(e),
        },
        Kind::Isize => match isize::read(source) {
            Ok(x) => Ok(Primitive::Isize(x)),
            Err(e) => Err(e),
        },
        Kind::Bool => match bool::read(source) {
            Ok(x) => Ok(Primitive::Bool(x)),
            Err(e) => Err(e),
        },
    }
}

/// Writes `value`: a struct as its fields in declared order, an enum as the index of its
/// variant and then the variant's fields in declared order, and every field by its own rule.
pub fn write_body(value: &Value, sink: &mut Vec<u8>) -> (r: CerealResult<()>)
    ensures
        r is Ok,
        final(sink)@ == old(sink)@ + value_wire(*value),
    decreases value, 0nat,
{
    match value {
        Value::Primitive(value) => write_primitive(value, sink),
        Value::Text(text) => text.write(sink),
        Value::Optional(None) => false.write(sink),
        Value::Optional(Some(inner)) => {
            let _ = true.write(sink);
            let r = write_body(inner, sink);
            assert(sink@ == old(sink)@ + (true.wire() + value_wire(**inner)));
            r
        },
        Value::Sequence(items) => {
            let _ = items.len().write(sink);
            let r = write_fields(items, sink);
            assert(sink@ == old(sink)@ + (wire_count(items@.len()) + values_wire(items@, 0)));
            r
        },
        Value::Struct(fields) => write_fields(fields, sink),
        Value::Enum(index, fields) => {
            let _ = write_variant(*index, sink);
            let r = write_fields(fields, sink);
            assert(sink@ == old(sink)@ + (wire_count(*index as nat) + values_wire(fields@, 0)));
            r
        },
    }
}

/// Writes each of `values` in turn.
pub fn write_fields(values: &Vec<Value>, sink: &mut Vec<u8>) -> (r: CerealResult<()>)
    ensures
        r is Ok,
        final(sink)@ == old(sink)@ + values_wire(values@, 0),
    decreases values, 1nat,
{
    let ghost before = sink@;
    let mut index: usize = 0;
    while index < values.len()
        invariant
            index <= values.len(),
            before + values_wire(values@, 0) == sink@ + values_wire(values@, index as nat),
        decreases values.len() - index,
    {
        let ghost so_far = sink@;
        let _ = write_body(&values[index], sink);
        assert(so_far + values_wire(values@, index as nat) == sink@ + values_wire(
            values@,
            (index + 1) as nat,
        ));
        index = index + 1;
    }
    Ok(())
}

/// The enums that a shape stands in, the nearest first.
enum Around<'a> {
    Nothing,
    Inside(&'a Vec<Vec<Shape>>, &'a Around<'a>),
}

impl<'a> Around<'a> {
    /// The enums, the nearest first.
    spec fn shapes(self) -> Seq<Vec<Vec<Shape>>>
        decreases self,
    {
        match self {
            Around::Nothing => Seq::empty(),
            Around::Inside(variants, rest) => seq![*variants] + rest.shapes(),
        }
    }

    /// The enum `level` levels out and the enums that it stands in.
    fn enclosing(&self, level: usize) -> (r: Option<(&'a Vec<Vec<Shape>>, &'a Around<'a>)>)
        ensures
            match r {
                Some((variants, rest)) => level < self.shapes().len() && *variants
                    == self.shapes()[level as int] && rest.shapes() == self.shapes().skip(
                    level + 1,
                ),
                None => level >= self.shapes().len(),
            },
        decreases self,
    {
        match self {
            Around::Nothing => None,
            Around::Inside(variants, rest) => if level == 0 {
                assert(self.shapes().skip(1) == rest.shapes());
                Some((*variants, *rest))
            } else {
                let r = rest.enclosing(level - 1);
                proof {
                    if r is Some {
                        assert(self.shapes().skip(level + 1) == rest.shapes().skip(level as int));
                    }
                }
                r
            },
        }
    }
}

/// Reads a value of `shape`: a struct as its fields in declared order, an enum as the
/// index of a variant and then that variant's fields. An index that names no variant is
/// an error.
pub fn read_body(shape: &Shape, source: &mut Source) -> (r: CerealResult<Value>)
    ensures
        final(source).bytes() == old(source).bytes(),
        match parse_body(*shape, old(source).remaining()) {
            Ok((tree, used)) => r matches Ok(value) && tree_of(value) == tree
                && final(source).consumed() == old(source).consumed() + used,
            Err(e) => r matches Err(x) && x == e,
        },
{
    let budget = source.remaining_len();
    read_within(shape, &Around::Nothing, source, budget)
}

/// Reads a value of `shape`, which stands in the enums `around`.
fn read_within(shape: &Shape, around: &Around, source: &mut Source, budget: usize) -> (r:
    CerealResult<Value>)
    ensures
        final(source).bytes() == old(source).bytes(),
        match parse_within(*shape, around.shapes(), old(source).remaining(), budget as nat) {
            Ok((tree, used)) => r matches Ok(value) && tree_of(value) == tree
                && final(source).consumed() == old(source).consumed() + used,
            Err(e) => r matches Err(x) && x == e,
        },
    decreases budget, shape, 0nat, 0nat,
{
    let ghost start = *source;
    match shape {
        Shape::Primitive(kind) => match read_primitive(*kind, source) {
            Ok(value) => Ok(Value::Primitive(value)),
            Err(e) => Err(e),
        },
        Shape::Text => match String::read(source) {
            Ok(text) => Ok(Value::Text(text)),
            Err(e) => Err(e),
        },
        Shape::Optional(inner) => {
            let present = match bool::read(source) {
                Ok(present) => present,
                Err(e) => {
                    return Err(e);
                },
            };
            if present {
                proof {
                    source.lemma_remaining_after(start, 1);
                }
                match read_within(inner, around, source, budget) {
                    Ok(value) => Ok(Value::Optional(Some(Box::new(value)))),
                    Err(e) => Err(e),
                }
            } else {
                Ok(Value::Optional(None))
            }
        },
        Shape::Sequence(inner) => {
            let count = match read_count(source) {
                Ok(count) => count,
                Err(e) => {
                    return Err(e);
                },
            };
            proof {
                source.lemma_remaining_after(start, 8);
            }
            match read_repeat(inner, around, source, count, budget) {
                Ok(items) => Ok(Value::Sequence(items)),
                Err(e) => Err(e),
            }
        },
        Shape::Struct(fields) => match read_fields(fields, around, source, budget) {
            Ok(values) => Ok(Value::Struct(values)),
            Err(e) => Err(e),
        },
        Shape::Enum(variants) => read_enum(variants, around, source, budget),
        Shape::Enclosing(level) => match around.enclosing(*level) {
            Some((variants, rest)) => if budget == 0 {
                Err(CerealError::Io(IoFailure::UnexpectedEof))
            } else {
                read_enum(variants, rest, source, budget - 1)
            },
            None => Err(CerealError::InvalidEncoding),
        },
    }
}

/// Reads a value of the enum with `variants`, which stands in the enums `around`.
fn read_enum(
    variants: &Vec<Vec<Shape>>,
    around: &Around,
    source: &mut Source,
    budget: usize,
) -> (r: CerealResult<Value>)
    ensures
        final(source).bytes() == old(source).bytes(),
        match parse_enum(*variants, around.shapes(), old(source).remaining(), budget as nat) {
            Ok((tree, used)) => r matches Ok(value) && tree_of(value) == tree
                && final(source).consumed() == old(source).consumed() + used,
            Err(e) => r matches Err(x) && x == e,
        },
    decreases budget, variants, 0nat, 0nat,
{
    let ghost start = *source;
    let index = match read_variant(source, variants.len()) {
        Ok(index) => index,
        Err(e) => {
            return Err(e);
        },
    };
    proof {
        source.lemma_remaining_after(start, 8);
    }
    let inside = Around::Inside(variants, around);
    match read_fields(&variants[index], &inside, source, budget) {
        Ok(values) => Ok(Value::Enum(index, values)),
        Err(e) => Err(e),
    }
}

/// Reads `count` values of `shape`, one after the other.
fn read_repeat(
    shape: &Shape,
    around: &Around,
    source: &mut Source,
    count: usize,
    budget: usize,
) -> (r: CerealResult<Vec<Value>>)
    ensures
        final(source).bytes() == old(source).bytes(),
        match parse_repeat(
            *shape,
            around.shapes(),
            old(source).remaining(),
            count as nat,
            budget as nat,
        ) {
            Ok((trees, used)) => r matches Ok(values) && trees_of(values@) == trees
                && final(source).consumed() == old(source).consumed() + used,
            Err(e) => r matches Err(x) && x == e,
        },
    decreases budget, shape, 1nat, count,
{
    let ghost start = *source;
    let ghost outer = around.shapes();
    let left = source.remaining_len();
    let mut values: Vec<Value> = Vec::with_capacity(
        if count <= left {
            count
        } else {
            left
        },
    );
    let mut index: usize = 0;
    proof {
        let later = parse_repeat(*shape, outer, source.remaining(), count as nat, budget as nat);
        if let Ok((rest, more)) = later {
            assert(trees_of(values@) + rest == rest);
        }
    }
    while index < count
        invariant
            index <= count,
            start == *old(source),
            outer == around.shapes(),
            source.bytes() == start.bytes(),
            source.consumed() >= start.consumed(),
            after_items(
                trees_of(values@),
                (source.consumed() - start.consumed()) as nat,
                parse_repeat(
                    *shape,
                    outer,
                    source.remaining(),
                    (count - index) as nat,
                    budget as nat,
                ),
            ) == parse_repeat(*shape, outer, start.remaining(), count as nat, budget as nat),
        decreases count - index,
    {
        let ghost here = *source;
        let ghost done = trees_of(values@);
        let value = match read_within(shape, around, source, budget) {
            Ok(value) => value,
            Err(e) => {
                return Err(e);
            },
        };
        values.push(value);
        proof {
            let used = (source.consumed() - here.consumed()) as nat;
            source.lemma_remaining_after(here, used);
            let later = parse_repeat(
                *shape,
                outer,
                source.remaining(),
                (count - index - 1) as nat,
                budget as nat,
            );
            assert(trees_of(values@) == done.push(tree_of(value)));
            if let Ok((rest, more)) = later {
                assert(done + (seq![tree_of(value)] + rest) == done.push(tree_of(value)) + rest);
            }
        }
        index = index + 1;
    }
    proof {
        assert(trees_of(values@) + Seq::<Tree>::empty() == trees_of(values@));
    }
    Ok(values)
}

/// Reads one value of each of `shapes`, in order.
fn read_fields(shapes: &Vec<Shape>, around: &Around, source: &mut Source, budget: usize) -> (r:
    CerealResult<Vec<Value>>)
    ensures
        final(source).bytes() == old(source).bytes(),
        match parse_fields(shapes@, around.shapes(), 0, old(source).remaining(), budget as nat) {
            Ok((trees, used)) => r matches Ok(values) && trees_of(values@) == trees
                && final(source).consumed() == old(source).consumed() + used,
            Err(e) => r matches Err(x) && x == e,
        },
    decreases budget, shapes, 0nat,
{
    let ghost start = *source;
    let ghost outer = around.shapes();
    let mut values: Vec<Value> = Vec::with_capacity(shapes.len());
    let mut index: usize = 0;
    proof {
        let later = parse_fields(shapes@, outer, 0, source.remaining(), budget as nat);
        if let Ok((rest, more)) = later {
            assert(trees_of(values@) + rest == rest);
        }
    }
    while index < shapes.len()
        invariant
            index <= shapes.len(),
            start == *old(source),
            outer == around.shapes(),
            source.bytes() == start.bytes(),
            source.consumed() >= start.consumed(),
            after_items(
                trees_of(values@),
                (source.consumed() - start.consumed()) as nat,
                parse_fields(shapes@, outer, index as nat, source.remaining(), budget as nat),
            ) == parse_fields(shapes@, outer, 0, start.remaining(), budget as nat),
        decreases shapes.len() - index,
    {
        let ghost here = *source;
        let ghost done = trees_of(values@);
        let value = match read_within(&shapes[index], around, source, budget) {
            Ok(value) => value,
            Err(e) => {
                return Err(e);
            },
        };
        values.push(value);
        proof {
            let used = (source.consumed() - here.consumed()) as nat;
            source.lemma_remaining_after(here, used);
            let later = parse_fields(
                shapes@,
                outer,
                (index + 1) as nat,
                source.remaining(),
                budget as nat,
            );
            assert(trees_of(values@) == done.push(tree_of(value)));
            if let Ok((rest, more)) = later {
                assert(done + (seq![tree_of(value)] + rest) == done.push(tree_of(value)) + rest);
            }
        }
        index = index + 1;
    }
    proof {
        assert(trees_of(values@) + Seq::<Tree>::empty() == trees_of(values@));
    }
    Ok(values)
}

/// Whether `value` is of `kind`.
pub fn is_of_kind(value: &Primitive, kind: Kind) -> (r: bool)
    ensures
        r == (kind_of(*value) == kind),
{
    match (value, kind) {
        (Primitive::U8(_), Kind::U8) => true,
        (Primitive::I8(_), Kind::I8) => true,
        (Primitive::U16(_), Kind::U16) => true,
        (Primitive::I16(_), Kind::I16) => true,
        (Primitive::U32(_), Kind::U32) => true,
        (Primitive::I32(_), Kind::I32) => true,
        (Primitive::U64(_), Kind::U64) => true,
        (Primitive::I64(_), Kind::I64) => true,
        (Primitive::Usize(_), Kind::Usize) => true,
        (Primitive::Isize(_), Kind::Isize) => true,
        (Primitive::Bool(_), Kind::Bool) => true,
        _ => false,
    }
}

/// Whether `value` is a value of `shape`.
pub fn has_shape(value: &Value, shape: &Shape) -> (r: bool)
    ensures
        r == conforms(*value, *shape),
{
    has_shape_within(value, shape, &Around::Nothing)
}

/// Whether `value` is a value of `shape`, which stands in the enums `around`.
fn has_shape_within(value: &Value, shape: &Shape, around: &Around) -> (r: bool)
    ensures
        r == conforms_within(*value, *shape, around.shapes()),
    decreases value, 0nat,
{
    match (value, shape) {
        (Value::Primitive(value), Shape::Primitive(kind)) => is_of_kind(value, *kind),
        (Value::Text(_), Shape::Text) => true,
        (Value::Optional(None), Shape::Optional(_)) => true,
        (Value::Optional(Some(inner)), Shape::Optional(shape)) => has_shape_within(
            inner,
            shape,
            around,
        ),
        (Value::Sequence(items), Shape::Sequence(shape)) => all_have_shape(items, shape, around),
        (Value::Struct(fields), Shape::Struct(shapes)) => have_shapes(fields, shapes, around),
        (Value::Enum(index, fields), Shape::Enum(variants)) => {
            let inside = Around::Inside(variants, around);
            *index < variants.len() && have_shapes(fields, &variants[*index], &inside)
        },
        (Value::Enum(index, fields), Shape::Enclosing(level)) => match around.enclosing(*level) {
            Some((variants, rest)) => {
                let inside = Around::Inside(variants, rest);
                assert(inside.shapes() == around.shapes().skip(*level as int));
                *index < variants.len() && have_shapes(fields, &variants[*index], &inside)
            },
            None => false,
        },
        _ => false,
    }
}

/// Whether each of `values` is a value of `shape`.
fn all_have_shape(values: &Vec<Value>, shape: &Shape, around: &Around) -> (r: bool)
    ensures
        r == forall|i: int|
            0 <= i < values@.len() ==> conforms_within(
                #[trigger] values@[i],
                *shape,
                around.shapes(),
            ),
    decreases values, 1nat,
{
    let mut index: usize = 0;
    while index < values.len()
        invariant
            index <= values.len(),
            forall|i: int|
                0 <= i < index ==> conforms_within(#[trigger] values@[i], *shape, around.shapes()),
        decreases values.len() - index,
    {
        if !has_shape_within(&values[index], shape, around) {
            return false;
        }
        index = index + 1;
    }
    true
}

/// Whether `values` are as many as `shapes`, each a value of the shape at its place.
fn have_shapes(values: &Vec<Value>, shapes: &Vec<Shape>, around: &Around) -> (r: bool)
    ensures
        r == all_conform(values@, shapes@, around.shapes()),
    decreases values, 1nat,
{
    if values.len() != shapes.len() {
        return false;
    }
    let mut index: usize = 0;
    while index < values.len()
        invariant
            index <= values.len(),
            values.len() == shapes.len(),
            forall|i: int|
                0 <= i < index ==> conforms_within(
                    #[trigger] values@[i],
                    shapes@[i],
                    around.shapes(),
                ),
        decreases values.len() - index,
    {
        if !has_shape_within(&values[index], &shapes[index], around) {
            return false;
        }
        index = index + 1;
    }
    true
}

} // verus!
