use vstd::prelude::*;
use crate::codec::CerealData;
use crate::error::{CerealError, end_of_stream};
use crate::laws::{
    lemma_count_parse, lemma_optional_width, lemma_primitives_round_trip,
    lemma_primitives_truncation, lemma_text_round_trip, lemma_variant_parse,
};
use crate::schema::{
    Primitive, Shape, Tree, Value, all_conform, conforms, conforms_within, kind_of, parse_body,
    parse_enum, parse_fields, parse_primitive, parse_repeat, parse_within, primitive_wire,
    tree_of, trees_of, value_wire, values_wire,
};
use crate::sequence::parse_items;
use crate::variant::parse_variant;
use crate::wire::{le_value, parse_count, wire_count};

verus! {

/// A number or a `bool` is read back from its bytes, whatever follows them, and cut
/// short is a short read.
pub proof fn lemma_primitive_round_trip(value: Primitive, rest: Seq<u8>, cut: int)
    ensures
        parse_primitive(kind_of(value), primitive_wire(value) + rest) == Ok::<
            (Primitive, nat),
            CerealError,
        >((value, primitive_wire(value).len())),
        0 <= cut < primitive_wire(value).len() ==> parse_primitive(
            kind_of(value),
            primitive_wire(value).take(cut),
        ) == Err::<(Primitive, nat), CerealError>(end_of_stream()),
        primitive_wire(value).len() <= 8,
{
    lemma_primitives_round_trip();
    lemma_primitives_truncation();
    crate::laws::lemma_fixed_widths();
    match value {
        Primitive::U8(x) => {
            assert(u8::parse(x.wire() + rest) is Ok);
            assert(0 <= cut < x.wire().len() ==> u8::parse(x.wire().take(cut)) is Err);
        },
        Primitive::I8(x) => {
            assert(i8::parse(x.wire() + rest) is Ok);
            assert(0 <= cut < x.wire().len() ==> i8::parse(x.wire().take(cut)) is Err);
        },
        Primitive::U16(x) => {
            assert(u16::parse(x.wire() + rest) is Ok);
            assert(0 <= cut < x.wire().len() ==> u16::parse(x.wire().take(cut)) is Err);
        },
        Primitive::I16(x) => {
            assert(i16::parse(x.wire() + rest) is Ok);
            assert(0 <= cut < x.wire().len() ==> i16::parse(x.wire().take(cut)) is Err);
        },
        Primitive::U32(x) => {
            assert(u32::parse(x.wire() + rest) is Ok);
            assert(0 <= cut < x.wire().len() ==> u32::parse(x.wire().take(cut)) is Err);
        },
        Primitive::I32(x) => {
            assert(i32::parse(x.wire() + rest) is Ok);
            assert(0 <= cut < x.wire().len() ==> i32::parse(x.wire().take(cut)) is Err);
        },
        Primitive::U64(x) => {
            assert(u64::parse(x.wire() + rest) is Ok);
            assert(0 <= cut < x.wire().len() ==> u64::parse(x.wire().take(cut)) is Err);
        },
        Primitive::I64(x) => {
            assert(i64::parse(x.wire() + rest) is Ok);
            assert(0 <= cut < x.wire().len() ==> i64::parse(x.wire().take(cut)) is Err);
        },
        Primitive::Usize(x) => {
            assert(usize::parse(x.wire() + rest) is Ok);
            assert(0 <= cut < x.wire().len() ==> usize::parse(x.wire().take(cut)) is Err);
        },
        Primitive::Isize(x) => {
            assert(isize::parse(x.wire() + rest) is Ok);
            assert(0 <= cut < x.wire().len() ==> isize::parse(x.wire().take(cut)) is Err);
        },
        Primitive::Bool(x) => {
            assert(bool::parse(x.wire() + rest) is Ok);
            assert(0 <= cut < x.wire().len() ==> bool::parse(x.wire().take(cut)) is Err);
        },
    }
}

/// Reading undoes writing for a value of any shape: from the bytes that `write_body`
/// gives for a value of `shape`, whatever bytes follow them, `read_body` gives what the
/// value stands for and takes exactly the bytes that were written.
pub proof fn lemma_body_round_trip(value: Value, shape: Shape, rest: Seq<u8>)
    requires
        conforms(value, shape),
        value_wire(value).len() <= usize::MAX,
    ensures
        parse_body(shape, value_wire(value) + rest) == Ok::<(Tree, nat), CerealError>(
            (tree_of(value), value_wire(value).len()),
        ),
{
    lemma_within_round_trip(
        value,
        shape,
        Seq::empty(),
        rest,
        (value_wire(value) + rest).len(),
    );
}

/// A value of any shape cut short is a short read: from fewer bytes than `write_body`
/// gives for a value of `shape`, `read_body` fails with an unexpected end of the stream.
pub proof fn lemma_body_truncated(value: Value, shape: Shape, cut: int)
    requires
        conforms(value, shape),
        value_wire(value).len() <= usize::MAX,
        0 <= cut < value_wire(value).len(),
    ensures
        parse_body(shape, value_wire(value).take(cut)) == Err::<(Tree, nat), CerealError>(
            end_of_stream(),
        ),
{
    lemma_within_truncated(value, shape, Seq::empty(), cut, cut as nat);
}

/// Whatever the bytes, the variant that `read_body` gives for an enum is one of the
/// enum's variants: the number that the first eight bytes spell is `UnknownVariant`
/// wherever it names none, on every machine.
pub proof fn lemma_enum_never_defaults(variants: Vec<Vec<Shape>>, bytes: Seq<u8>)
    ensures
        match parse_body(Shape::Enum(variants), bytes) {
            Ok((tree, used)) => tree matches Tree::Enum(index, fields) && index < variants@.len(),
            Err(e) => true,
        },
        bytes.len() >= 8 && le_value(bytes.take(8)) >= variants@.len() ==> parse_body(
            Shape::Enum(variants),
            bytes,
        ) == Err::<(Tree, nat), CerealError>(CerealError::UnknownVariant),
{
    assert(parse_body(Shape::Enum(variants), bytes) == parse_enum(
        variants,
        Seq::empty(),
        bytes,
        bytes.len(),
    ));
}

/// Reading undoes writing for a value of a shape that stands in the enums `around`, where
/// the budget covers the bytes of the value and the enums around it.
pub proof fn lemma_within_round_trip(
    value: Value,
    shape: Shape,
    around: Seq<Vec<Vec<Shape>>>,
    rest: Seq<u8>,
    budget: nat,
)
    requires
        conforms_within(value, shape, around),
        value_wire(value).len() <= usize::MAX,
        budget >= value_wire(value).len() + around.len(),
    ensures
        parse_within(shape, around, value_wire(value) + rest, budget) == Ok::<
            (Tree, nat),
            CerealError,
        >((tree_of(value), value_wire(value).len())),
    decreases value, 0nat,
{
    match (value, shape) {
        (Value::Primitive(inner), Shape::Primitive(kind)) => {
            lemma_primitive_round_trip(inner, rest, 0);
        },
        (Value::Text(text), Shape::Text) => {
            lemma_text_round_trip();
            assert(String::parse(text.wire() + rest) is Ok);
        },
        (Value::Optional(None), Shape::Optional(_)) => {
            lemma_primitive_round_trip(Primitive::Bool(false), rest, 0);
        },
        (Value::Optional(Some(inner)), Shape::Optional(inner_shape)) => {
            let tag = true.wire();
            let body = value_wire(*inner);
            lemma_primitive_round_trip(Primitive::Bool(true), body + rest, 0);
            lemma_optional_width(Some(true));
            assert((tag + body) + rest == tag + (body + rest));
            assert((tag + (body + rest)).skip(1) == body + rest);
            lemma_within_round_trip(*inner, *inner_shape, around, rest, budget);
        },
        (Value::Sequence(items), Shape::Sequence(inner_shape)) => {
            let count = wire_count(items@.len());
            let body = values_wire(items@, 0);
            assert(items.len() == items@.len());
            lemma_count_parse(items.len(), body + rest);
            assert((count + body) + rest == count + (body + rest));
            assert((count + (body + rest)).skip(8) == body + rest);
            lemma_repeat_round_trip(items@, 0, *inner_shape, around, rest, budget);
            assert(trees_of(items@).skip(0) == trees_of(items@));
        },
        (Value::Struct(fields), Shape::Struct(shapes)) => {
            lemma_fields_round_trip(fields@, shapes@, around, 0, rest, budget);
            assert(trees_of(fields@).skip(0) == trees_of(fields@));
        },
        (Value::Enum(index, fields), Shape::Enum(variants)) => {
            lemma_count_parse(index, Seq::empty());
            lemma_enum_round_trip(index, fields, variants, around, rest, budget);
        },
        (Value::Enum(index, fields), Shape::Enclosing(level)) => {
            lemma_count_parse(index, Seq::empty());
            assert(seq![around[level as int]] + around.skip(level + 1) == around.skip(
                level as int,
            ));
            lemma_enum_round_trip(
                index,
                fields,
                around[level as int],
                around.skip(level + 1),
                rest,
                (budget - 1) as nat,
            );
        },
        _ => {},
    }
}

/// An enum's index and fields are read back as the variant that was written.
pub proof fn lemma_enum_round_trip(
    index: usize,
    fields: Vec<Value>,
    variants: Vec<Vec<Shape>>,
    around: Seq<Vec<Vec<Shape>>>,
    rest: Seq<u8>,
    budget: nat,
)
    requires
        index < variants@.len(),
        all_conform(fields@, variants@[index as int]@, seq![variants] + around),
        8 + values_wire(fields@, 0).len() <= usize::MAX,
        budget >= 8 + values_wire(fields@, 0).len() + around.len(),
    ensures
        parse_enum(
            variants,
            around,
            (wire_count(index as nat) + values_wire(fields@, 0)) + rest,
            budget,
        ) == Ok::<(Tree, nat), CerealError>(
            (Tree::Enum(index as nat, trees_of(fields@)), 8 + values_wire(fields@, 0).len()),
        ),
    decreases fields, 0nat,
{
    let tag = wire_count(index as nat);
    let body = values_wire(fields@, 0);
    lemma_count_parse(index, body + rest);
    lemma_variant_parse(index as u64, variants@.len(), body + rest);
    assert((tag + body) + rest == tag + (body + rest));
    assert((tag + (body + rest)).skip(8) == body + rest);
    lemma_fields_round_trip(
        fields@,
        variants@[index as int]@,
        seq![variants] + around,
        0,
        rest,
        budget,
    );
    assert(trees_of(fields@).skip(0) == trees_of(fields@));
}

/// Values of one shape written one after the other are read back one after the other.
pub proof fn lemma_repeat_round_trip(
    values: Seq<Value>,
    from: nat,
    shape: Shape,
    around: Seq<Vec<Vec<Shape>>>,
    rest: Seq<u8>,
    budget: nat,
)
    requires
        from <= values.len(),
        forall|i: int| 0 <= i < values.len() ==> conforms_within(#[trigger] values[i], shape, around),
        values_wire(values, from).len() <= usize::MAX,
        budget >= values_wire(values, from).len() + around.len(),
    ensures
        parse_repeat(
            shape,
            around,
            values_wire(values, from) + rest,
            (values.len() - from) as nat,
            budget,
        ) == Ok::<(Seq<Tree>, nat), CerealError>(
            (trees_of(values).skip(from as int), values_wire(values, from).len()),
        ),
    decreases values, values.len() - from,
{
    if from < values.len() {
        let head = value_wire(values[from as int]);
        let tail = values_wire(values, from + 1);
        assert((head + tail) + rest == head + (tail + rest));
        lemma_within_round_trip(values[from as int], shape, around, tail + rest, budget);
        assert((head + (tail + rest)).skip(head.len() as int) == tail + rest);
        lemma_repeat_round_trip(values, from + 1, shape, around, rest, budget);
        assert(seq![tree_of(values[from as int])] + trees_of(values).skip((from + 1) as int)
            == trees_of(values).skip(from as int));
    } else {
        assert(trees_of(values).skip(from as int) == Seq::<Tree>::empty());
    }
}

/// Fields written in declared order are read back in declared order.
pub proof fn lemma_fields_round_trip(
    values: Seq<Value>,
    shapes: Seq<Shape>,
    around: Seq<Vec<Vec<Shape>>>,
    from: nat,
    rest: Seq<u8>,
    budget: nat,
)
    requires
        from <= values.len(),
        all_conform(values, shapes, around),
        values_wire(values, from).len() <= usize::MAX,
        budget >= values_wire(values, from).len() + around.len(),
    ensures
        parse_fields(shapes, around, from, values_wire(values, from) + rest, budget) == Ok::<
            (Seq<Tree>, nat),
            CerealError,
        >((trees_of(values).skip(from as int), values_wire(values, from).len())),
    decreases values, values.len() - from,
{
    if from < values.len() {
        let head = value_wire(values[from as int]);
        let tail = values_wire(values, from + 1);
        assert((head + tail) + rest == head + (tail + rest));
        lemma_within_round_trip(
            values[from as int],
            shapes[from as int],
            around,
            tail + rest,
            budget,
        );
        assert((head + (tail + rest)).skip(head.len() as int) == tail + rest);
        lemma_fields_round_trip(values, shapes, around, from + 1, rest, budget);
        assert(seq![tree_of(values[from as int])] + trees_of(values).skip((from + 1) as int)
            == trees_of(values).skip(from as int));
    } else {
        assert(trees_of(values).skip(from as int) == Seq::<Tree>::empty());
    }
}

/// A value cut short is a short read, where the shape stands in the enums `around` and
/// the budget covers the bytes that are left and the enums around the value.
pub proof fn lemma_within_truncated(
    value: Value,
    shape: Shape,
    around: Seq<Vec<Vec<Shape>>>,
    cut: int,
    budget: nat,
)
    requires
        conforms_within(value, shape, around),
        value_wire(value).len() <= usize::MAX,
        0 <= cut < value_wire(value).len(),
        budget >= cut + around.len(),
    ensures
        parse_within(shape, around, value_wire(value).take(cut), budget) == Err::<
            (Tree, nat),
            CerealError,
        >(end_of_stream()),
    decreases value, 0nat,
{
    match (value, shape) {
        (Value::Primitive(inner), Shape::Primitive(kind)) => {
            lemma_primitive_round_trip(inner, Seq::empty(), cut);
        },
        (Value::Text(text), Shape::Text) => {
            lemma_text_round_trip();
            assert(String::parse(text.wire().take(cut)) is Err);
        },
        (Value::Optional(None), Shape::Optional(_)) => {
            lemma_primitive_round_trip(Primitive::Bool(false), Seq::empty(), cut);
        },
        (Value::Optional(Some(inner)), Shape::Optional(inner_shape)) => {
            let tag = true.wire();
            let body = value_wire(*inner);
            lemma_optional_width(Some(true));
            if cut < 1 {
                assert((tag + body).take(cut) == tag.take(cut));
                lemma_primitive_round_trip(Primitive::Bool(true), Seq::empty(), cut);
            } else {
                lemma_primitive_round_trip(Primitive::Bool(true), body.take(cut - 1), 0);
                assert((tag + body).take(cut) == tag + body.take(cut - 1));
                assert((tag + body.take(cut - 1)).skip(1) == body.take(cut - 1));
                lemma_within_truncated(*inner, *inner_shape, around, cut - 1, budget);
            }
        },
        (Value::Sequence(items), Shape::Sequence(inner_shape)) => {
            let count = wire_count(items@.len());
            let body = values_wire(items@, 0);
            assert(items.len() == items@.len());
            lemma_count_parse(items.len(), body.take(cut - 8));
            if cut < 8 {
                assert((count + body).take(cut).len() == cut);
            } else {
                assert((count + body).take(cut) == count + body.take(cut - 8));
                assert((count + body.take(cut - 8)).skip(8) == body.take(cut - 8));
                lemma_repeat_truncated(items@, 0, *inner_shape, around, cut - 8, budget);
            }
        },
        (Value::Struct(fields), Shape::Struct(shapes)) => {
            lemma_fields_truncated(fields@, shapes@, around, 0, cut, budget);
        },
        (Value::Enum(index, fields), Shape::Enum(variants)) => {
            lemma_count_parse(index, Seq::empty());
            lemma_enum_truncated(index, fields, variants, around, cut, budget);
        },
        (Value::Enum(index, fields), Shape::Enclosing(level)) => {
            lemma_count_parse(index, Seq::empty());
            if budget > 0 {
                assert(seq![around[level as int]] + around.skip(level + 1) == around.skip(
                    level as int,
                ));
                lemma_enum_truncated(
                    index,
                    fields,
                    around[level as int],
                    around.skip(level + 1),
                    cut,
                    (budget - 1) as nat,
                );
            }
        },
        _ => {},
    }
}

/// An enum cut short is a short read.
pub proof fn lemma_enum_truncated(
    index: usize,
    fields: Vec<Value>,
    variants: Vec<Vec<Shape>>,
    around: Seq<Vec<Vec<Shape>>>,
    cut: int,
    budget: nat,
)
    requires
        index < variants@.len(),
        all_conform(fields@, variants@[index as int]@, seq![variants] + around),
        8 + values_wire(fields@, 0).len() <= usize::MAX,
        0 <= cut < 8 + values_wire(fields@, 0).len(),
        budget >= cut + around.len(),
    ensures
        parse_enum(
            variants,
            around,
            (wire_count(index as nat) + values_wire(fields@, 0)).take(cut),
            budget,
        ) == Err::<(Tree, nat), CerealError>(end_of_stream()),
    decreases fields, 0nat,
{
    let tag = wire_count(index as nat);
    let body = values_wire(fields@, 0);
    lemma_count_parse(index, body.take(cut - 8));
    lemma_variant_parse(index as u64, variants@.len(), body.take(cut - 8));
    if cut < 8 {
        assert((tag + body).take(cut).len() == cut);
    } else {
        assert((tag + body).take(cut) == tag + body.take(cut - 8));
        assert((tag + body.take(cut - 8)).skip(8) == body.take(cut - 8));
        lemma_fields_truncated(
            fields@,
            variants@[index as int]@,
            seq![variants] + around,
            0,
            cut - 8,
            budget,
        );
    }
}

/// Values of one shape written one after the other and cut short are a short read.
pub proof fn lemma_repeat_truncated(
    values: Seq<Value>,
    from: nat,
    shape: Shape,
    around: Seq<Vec<Vec<Shape>>>,
    cut: int,
    budget: nat,
)
    requires
        from <= values.len(),
        forall|i: int| 0 <= i < values.len() ==> conforms_within(#[trigger] values[i], shape, around),
        values_wire(values, from).len() <= usize::MAX,
        0 <= cut < values_wire(values, from).len(),
        budget >= cut + around.len(),
    ensures
        parse_repeat(
            shape,
            around,
            values_wire(values, from).take(cut),
            (values.len() - from) as nat,
            budget,
        ) == Err::<(Seq<Tree>, nat), CerealError>(end_of_stream()),
    decreases values, values.len() - from,
{
    if from < values.len() {
        let head = value_wire(values[from as int]);
        let tail = values_wire(values, from + 1);
        if cut < head.len() {
            assert((head + tail).take(cut) == head.take(cut));
            lemma_within_truncated(values[from as int], shape, around, cut, budget);
        } else {
            let left = cut - head.len();
            assert((head + tail).take(cut) == head + tail.take(left));
            lemma_within_round_trip(values[from as int], shape, around, tail.take(left), budget);
            assert((head + tail.take(left)).skip(head.len() as int) == tail.take(left));
            lemma_repeat_truncated(values, from + 1, shape, around, left, budget);
        }
    }
}

/// Fields written in declared order and cut short are a short read.
pub proof fn lemma_fields_truncated(
    values: Seq<Value>,
    shapes: Seq<Shape>,
    around: Seq<Vec<Vec<Shape>>>,
    from: nat,
    cut: int,
    budget: nat,
)
    requires
        from <= values.len(),
        all_conform(values, shapes, around),
        values_wire(values, from).len() <= usize::MAX,
        0 <= cut < values_wire(values, from).len(),
        budget >= cut + around.len(),
    ensures
        parse_fields(shapes, around, from, values_wire(values, from).take(cut), budget) == Err::<
            (Seq<Tree>, nat),
            CerealError,
        >(end_of_stream()),
    decreases values, values.len() - from,
{
    if from < values.len() {
        let head = value_wire(values[from as int]);
        let tail = values_wire(values, from + 1);
        if cut < head.len() {
            assert((head + tail).take(cut) == head.take(cut));
            lemma_within_truncated(values[from as int], shapes[from as int], around, cut, budget);
        } else {
            let left = cut - head.len();
            assert((head + tail).take(cut) == head + tail.take(left));
            lemma_within_round_trip(
                values[from as int],
                shapes[from as int],
                around,
                tail.take(left),
                budget,
            );
            assert((head + tail.take(left)).skip(head.len() as int) == tail.take(left));
            lemma_fields_truncated(values, shapes, around, from + 1, left, budget);
        }
    }
}

/// A text takes no more bytes than there are.
pub proof fn lemma_bytes_take_what_is_there(bytes: Seq<u8>, count: nat)
    ensures
        parse_items::<u8>(bytes, count) matches Ok((items, used)) ==> used <= bytes.len(),
    decreases count,
{
    if count > 0 {
        if let Ok((first, used)) = u8::parse(bytes) {
            lemma_bytes_take_what_is_there(bytes.skip(used as int), (count - 1) as nat);
        }
    }
}

/// The budget is no limit: with a budget that covers the bytes and the enums around the
/// shape, what is read is the same whatever the budget, and takes no more bytes than
/// there are. The budget only shows that reading ends.
pub proof fn lemma_budget_is_no_limit(
    shape: Shape,
    around: Seq<Vec<Vec<Shape>>>,
    bytes: Seq<u8>,
    budget: nat,
    other: nat,
)
    requires
        budget >= bytes.len() + around.len(),
        other >= bytes.len() + around.len(),
    ensures
        parse_within(shape, around, bytes, budget) == parse_within(shape, around, bytes, other),
        parse_within(shape, around, bytes, budget) matches Ok((tree, used)) ==> used <= bytes.len(),
    decreases budget, shape, 0nat, 0nat,
{
    match shape {
        Shape::Primitive(kind) => {},
        Shape::Text => {
            if let Ok((count, used)) = parse_count(bytes) {
                lemma_bytes_take_what_is_there(bytes.skip(used as int), count);
            }
        },
        Shape::Optional(inner) => {
            if let Ok((present, used)) = bool::parse(bytes) {
                lemma_budget_is_no_limit(*inner, around, bytes.skip(used as int), budget, other);
            }
        },
        Shape::Sequence(inner) => {
            if let Ok((count, used)) = parse_count(bytes) {
                lemma_repeat_budget(*inner, around, bytes.skip(used as int), count, budget, other);
            }
        },
        Shape::Struct(fields) => {
            lemma_fields_budget(fields@, around, 0, bytes, budget, other);
        },
        Shape::Enum(variants) => {
            lemma_enum_budget(variants, around, bytes, budget, other);
        },
        Shape::Enclosing(level) => {
            if level < around.len() {
                lemma_enum_budget(
                    around[level as int],
                    around.skip(level + 1),
                    bytes,
                    (budget - 1) as nat,
                    (other - 1) as nat,
                );
            }
        },
    }
}

/// The budget is no limit on reading an enum.
pub proof fn lemma_enum_budget(
    variants: Vec<Vec<Shape>>,
    around: Seq<Vec<Vec<Shape>>>,
    bytes: Seq<u8>,
    budget: nat,
    other: nat,
)
    requires
        budget >= bytes.len() + around.len(),
        other >= bytes.len() + around.len(),
    ensures
        parse_enum(variants, around, bytes, budget) == parse_enum(variants, around, bytes, other),
        parse_enum(variants, around, bytes, budget) matches Ok((tree, used)) ==> used <= bytes.len(),
    decreases budget, variants, 0nat, 0nat,
{
    if let Ok((index, used)) = parse_variant(bytes, variants@.len()) {
        lemma_fields_budget(
            variants@[index as int]@,
            seq![variants] + around,
            0,
            bytes.skip(used as int),
            budget,
            other,
        );
    }
}

/// The budget is no limit on reading values one after the other.
pub proof fn lemma_repeat_budget(
    shape: Shape,
    around: Seq<Vec<Vec<Shape>>>,
    bytes: Seq<u8>,
    count: nat,
    budget: nat,
    other: nat,
)
    requires
        budget >= bytes.len() + around.len(),
        other >= bytes.len() + around.len(),
    ensures
        parse_repeat(shape, around, bytes, count, budget) == parse_repeat(
            shape,
            around,
            bytes,
            count,
            other,
        ),
        parse_repeat(shape, around, bytes, count, budget) matches Ok((trees, used)) ==> used
            <= bytes.len(),
    decreases budget, shape, 1nat, count,
{
    if count > 0 {
        lemma_budget_is_no_limit(shape, around, bytes, budget, other);
        if let Ok((first, used)) = parse_within(shape, around, bytes, budget) {
            lemma_repeat_budget(
                shape,
                around,
                bytes.skip(used as int),
                (count - 1) as nat,
                budget,
                other,
            );
        }
    }
}

/// The budget is no limit on reading fields in declared order.
pub proof fn lemma_fields_budget(
    shapes: Seq<Shape>,
    around: Seq<Vec<Vec<Shape>>>,
    from: nat,
    bytes: Seq<u8>,
    budget: nat,
    other: nat,
)
    requires
        budget >= bytes.len() + around.len(),
        other >= bytes.len() + around.len(),
    ensures
        parse_fields(shapes, around, from, bytes, budget) == parse_fields(
            shapes,
            around,
            from,
            bytes,
            other,
        ),
        parse_fields(shapes, around, from, bytes, budget) matches Ok((trees, used)) ==> used
            <= bytes.len(),
    decreases budget, shapes, shapes.len() - from,
{
    if from < shapes.len() {
        lemma_budget_is_no_limit(shapes[from as int], around, bytes, budget, other);
        if let Ok((first, used)) = parse_within(shapes[from as int], around, bytes, budget) {
            lemma_fields_budget(shapes, around, from + 1, bytes.skip(used as int), budget, other);
        }
    }
}

} // verus!
