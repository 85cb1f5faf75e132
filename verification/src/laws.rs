use vstd::prelude::*;
use vstd::utf8::{encode_utf8, encode_utf8_decode_utf8, encode_utf8_valid_utf8};
use core::marker::PhantomData;
use std::collections::HashMap;
use std::hash::Hash;
use crate::codec::CerealData;
use crate::composite::parse_pair;
use crate::error::{CerealError, end_of_stream};
use crate::sequence::{all_well_formed, models_of, parse_items, wire_items};
use crate::table::{entries_of, keys_are_sound, keys_tell_apart, table_model, table_of};
use crate::variant::parse_variant;
use crate::wire::{
    le_bytes, lemma_le_bytes_len, lemma_parse_le_of_bytes, lemma_radix_values,
    lemma_signed_round_trip, le_value, parse_count, parse_le, to_unsigned, wire_count,
};

verus! {

/// Reading undoes writing: from the bytes that `write` gives for a value, whatever bytes
/// follow them, `read` gives an equal value and takes exactly the bytes that were written.
/// It is stated of the values that a program can hold, as every value that was written is.
pub open spec fn round_trips<T: CerealData>() -> bool {
    forall|value: T, rest: Seq<u8>|
        value.well_formed() ==> #[trigger] T::parse(value.wire() + rest) == Ok::<
            (T::Model, nat),
            CerealError,
        >((value.model(), value.wire().len()))
}

/// A value cut short is a short read: from fewer bytes than `write` gives for a value,
/// `read` fails with an unexpected end of the stream.
pub open spec fn truncation_fails<T: CerealData>() -> bool {
    forall|value: T, cut: int|
        value.well_formed() && 0 <= cut < value.wire().len() ==> #[trigger] T::parse(
            value.wire().take(cut),
        ) == Err::<(T::Model, nat), CerealError>(end_of_stream())
}

/// Each numeric kind and `bool` takes its declared width, whatever the value: one byte
/// for `u8`, `i8` and `bool`, two for `u16` and `i16`, four for `u32` and `i32`, eight for
/// `u64`, `i64`, `usize` and `isize`.
pub proof fn lemma_fixed_widths()
    ensures
        forall|value: u8| #[trigger] value.wire().len() == 1,
        forall|value: i8| #[trigger] value.wire().len() == 1,
        forall|value: u16| #[trigger] value.wire().len() == 2,
        forall|value: i16| #[trigger] value.wire().len() == 2,
        forall|value: u32| #[trigger] value.wire().len() == 4,
        forall|value: i32| #[trigger] value.wire().len() == 4,
        forall|value: u64| #[trigger] value.wire().len() == 8,
        forall|value: i64| #[trigger] value.wire().len() == 8,
        forall|value: usize| #[trigger] value.wire().len() == 8,
        forall|value: isize| #[trigger] value.wire().len() == 8,
        forall|value: bool| #[trigger] value.wire().len() == 1,
{
    assert forall|value: u8| #[trigger] value.wire().len() == 1 by {
        lemma_le_bytes_len(value as nat, 1);
    }
    assert forall|value: i8| #[trigger] value.wire().len() == 1 by {
        lemma_le_bytes_len(to_unsigned(value as int, 1), 1);
    }
    assert forall|value: u16| #[trigger] value.wire().len() == 2 by {
        lemma_le_bytes_len(value as nat, 2);
    }
    assert forall|value: i16| #[trigger] value.wire().len() == 2 by {
        lemma_le_bytes_len(to_unsigned(value as int, 2), 2);
    }
    assert forall|value: u32| #[trigger] value.wire().len() == 4 by {
        lemma_le_bytes_len(value as nat, 4);
    }
    assert forall|value: i32| #[trigger] value.wire().len() == 4 by {
        lemma_le_bytes_len(to_unsigned(value as int, 4), 4);
    }
    assert forall|value: u64| #[trigger] value.wire().len() == 8 by {
        lemma_le_bytes_len(value as nat, 8);
    }
    assert forall|value: i64| #[trigger] value.wire().len() == 8 by {
        lemma_le_bytes_len(to_unsigned(value as int, 8), 8);
    }
    assert forall|value: usize| #[trigger] value.wire().len() == 8 by {
        lemma_le_bytes_len(value as nat, 8);
    }
    assert forall|value: isize| #[trigger] value.wire().len() == 8 by {
        lemma_le_bytes_len(to_unsigned(value as int, 8), 8);
    }
    assert forall|value: bool| #[trigger] value.wire().len() == 1 by {
        lemma_le_bytes_len(0, 1);
        lemma_le_bytes_len(1, 1);
    }
}

/// Reading undoes writing for every numeric kind and for `bool`.
pub proof fn lemma_primitives_round_trip()
    ensures
        round_trips::<u8>(),
        round_trips::<i8>(),
        round_trips::<u16>(),
        round_trips::<i16>(),
        round_trips::<u32>(),
        round_trips::<i32>(),
        round_trips::<u64>(),
        round_trips::<i64>(),
        round_trips::<usize>(),
        round_trips::<isize>(),
        round_trips::<bool>(),
{
    lemma_radix_values();
    assert forall|value: u8, rest: Seq<u8>| #[trigger]
        u8::parse(value.wire() + rest) == Ok::<(u8, nat), CerealError>(
            (value.model(), value.wire().len()),
        ) by {
        lemma_parse_le_of_bytes(value as nat, 1, rest);
        lemma_le_bytes_len(value as nat, 1);
    }
    assert forall|value: i8, rest: Seq<u8>| #[trigger]
        i8::parse(value.wire() + rest) == Ok::<(i8, nat), CerealError>(
            (value.model(), value.wire().len()),
        ) by {
        lemma_signed_round_trip(value as int, 1);
        lemma_parse_le_of_bytes(to_unsigned(value as int, 1), 1, rest);
        lemma_le_bytes_len(to_unsigned(value as int, 1), 1);
    }
    assert forall|value: u16, rest: Seq<u8>| #[trigger]
        u16::parse(value.wire() + rest) == Ok::<(u16, nat), CerealError>(
            (value.model(), value.wire().len()),
        ) by {
        lemma_parse_le_of_bytes(value as nat, 2, rest);
        lemma_le_bytes_len(value as nat, 2);
    }
    assert forall|value: i16, rest: Seq<u8>| #[trigger]
        i16::parse(value.wire() + rest) == Ok::<(i16, nat), CerealError>(
            (value.model(), value.wire().len()),
        ) by {
        lemma_signed_round_trip(value as int, 2);
        lemma_parse_le_of_bytes(to_unsigned(value as int, 2), 2, rest);
        lemma_le_bytes_len(to_unsigned(value as int, 2), 2);
    }
    assert forall|value: u32, rest: Seq<u8>| #[trigger]
        u32::parse(value.wire() + rest) == Ok::<(u32, nat), CerealError>(
            (value.model(), value.wire().len()),
        ) by {
        lemma_parse_le_of_bytes(value as nat, 4, rest);
        lemma_le_bytes_len(value as nat, 4);
    }
    assert forall|value: i32, rest: Seq<u8>| #[trigger]
        i32::parse(value.wire() + rest) == Ok::<(i32, nat), CerealError>(
            (value.model(), value.wire().len()),
        ) by {
        lemma_signed_round_trip(value as int, 4);
        lemma_parse_le_of_bytes(to_unsigned(value as int, 4), 4, rest);
        lemma_le_bytes_len(to_unsigned(value as int, 4), 4);
    }
    assert forall|value: u64, rest: Seq<u8>| #[trigger]
        u64::parse(value.wire() + rest) == Ok::<(u64, nat), CerealError>(
            (value.model(), value.wire().len()),
        ) by {
        lemma_parse_le_of_bytes(value as nat, 8, rest);
        lemma_le_bytes_len(value as nat, 8);
    }
    assert forall|value: i64, rest: Seq<u8>| #[trigger]
        i64::parse(value.wire() + rest) == Ok::<(i64, nat), CerealError>(
            (value.model(), value.wire().len()),
        ) by {
        lemma_signed_round_trip(value as int, 8);
        lemma_parse_le_of_bytes(to_unsigned(value as int, 8), 8, rest);
        lemma_le_bytes_len(to_unsigned(value as int, 8), 8);
    }
    assert forall|value: usize, rest: Seq<u8>| #[trigger]
        usize::parse(value.wire() + rest) == Ok::<(usize, nat), CerealError>(
            (value.model(), value.wire().len()),
        ) by {
        lemma_parse_le_of_bytes(value as nat, 8, rest);
        lemma_le_bytes_len(value as nat, 8);
    }
    assert forall|value: isize, rest: Seq<u8>| #[trigger]
        isize::parse(value.wire() + rest) == Ok::<(isize, nat), CerealError>(
            (value.model(), value.wire().len()),
        ) by {
        lemma_signed_round_trip(value as int, 8);
        lemma_parse_le_of_bytes(to_unsigned(value as int, 8), 8, rest);
        lemma_le_bytes_len(to_unsigned(value as int, 8), 8);
    }
    assert forall|value: bool, rest: Seq<u8>| #[trigger]
        bool::parse(value.wire() + rest) == Ok::<(bool, nat), CerealError>(
            (value.model(), value.wire().len()),
        ) by {
        lemma_parse_le_of_bytes(0, 1, rest);
        lemma_parse_le_of_bytes(1, 1, rest);
        lemma_le_bytes_len(0, 1);
        lemma_le_bytes_len(1, 1);
    }
}

/// A numeric value or a `bool` cut short is a short read.
pub proof fn lemma_primitives_truncation()
    ensures
        truncation_fails::<u8>(),
        truncation_fails::<i8>(),
        truncation_fails::<u16>(),
        truncation_fails::<i16>(),
        truncation_fails::<u32>(),
        truncation_fails::<i32>(),
        truncation_fails::<u64>(),
        truncation_fails::<i64>(),
        truncation_fails::<usize>(),
        truncation_fails::<isize>(),
        truncation_fails::<bool>(),
{
    lemma_fixed_widths();
    assert forall|value: u8, cut: int| 0 <= cut < value.wire().len() implies #[trigger]
        u8::parse(value.wire().take(cut)) == Err::<(u8, nat), CerealError>(end_of_stream()) by {
        assert(value.wire().take(cut).len() == cut);
    }
    assert forall|value: i8, cut: int| 0 <= cut < value.wire().len() implies #[trigger]
        i8::parse(value.wire().take(cut)) == Err::<(i8, nat), CerealError>(end_of_stream()) by {
        assert(value.wire().take(cut).len() == cut);
    }
    assert forall|value: u16, cut: int| 0 <= cut < value.wire().len() implies #[trigger]
        u16::parse(value.wire().take(cut)) == Err::<(u16, nat), CerealError>(end_of_stream()) by {
        assert(value.wire().take(cut).len() == cut);
    }
    assert forall|value: i16, cut: int| 0 <= cut < value.wire().len() implies #[trigger]
        i16::parse(value.wire().take(cut)) == Err::<(i16, nat), CerealError>(end_of_stream()) by {
        assert(value.wire().take(cut).len() == cut);
    }
    assert forall|value: u32, cut: int| 0 <= cut < value.wire().len() implies #[trigger]
        u32::parse(value.wire().take(cut)) == Err::<(u32, nat), CerealError>(end_of_stream()) by {
        assert(value.wire().take(cut).len() == cut);
    }
    assert forall|value: i32, cut: int| 0 <= cut < value.wire().len() implies #[trigger]
        i32::parse(value.wire().take(cut)) == Err::<(i32, nat), CerealError>(end_of_stream()) by {
        assert(value.wire().take(cut).len() == cut);
    }
    assert forall|value: u64, cut: int| 0 <= cut < value.wire().len() implies #[trigger]
        u64::parse(value.wire().take(cut)) == Err::<(u64, nat), CerealError>(end_of_stream()) by {
        assert(value.wire().take(cut).len() == cut);
    }
    assert forall|value: i64, cut: int| 0 <= cut < value.wire().len() implies #[trigger]
        i64::parse(value.wire().take(cut)) == Err::<(i64, nat), CerealError>(end_of_stream()) by {
        assert(value.wire().take(cut).len() == cut);
    }
    assert forall|value: usize, cut: int| 0 <= cut < value.wire().len() implies #[trigger]
        usize::parse(value.wire().take(cut)) == Err::<(usize, nat), CerealError>(end_of_stream()) by {
        assert(value.wire().take(cut).len() == cut);
    }
    assert forall|value: isize, cut: int| 0 <= cut < value.wire().len() implies #[trigger]
        isize::parse(value.wire().take(cut)) == Err::<(isize, nat), CerealError>(end_of_stream()) by {
        assert(value.wire().take(cut).len() == cut);
    }
    assert forall|value: bool, cut: int| 0 <= cut < value.wire().len() implies #[trigger]
        bool::parse(value.wire().take(cut)) == Err::<(bool, nat), CerealError>(end_of_stream()) by {
        assert(value.wire().take(cut).len() == cut);
    }
}

/// Values that take no bytes are read back from no bytes.
pub proof fn lemma_empty_round_trip<T: CerealData>()
    ensures
        round_trips::<()>(),
        truncation_fails::<()>(),
        round_trips::<PhantomData<T>>(),
        truncation_fails::<PhantomData<T>>(),
{
}

/// A boxed value is read back as the value is.
pub proof fn lemma_box_round_trip<T: CerealData>()
    requires
        round_trips::<T>(),
    ensures
        round_trips::<Box<T>>(),
{
    assert forall|value: Box<T>, rest: Seq<u8>| value.well_formed() implies #[trigger] Box::<T>::parse(
        value.wire() + rest,
    ) == Ok::<(T::Model, nat), CerealError>((value.model(), value.wire().len())) by {
        assert(T::parse((*value).wire() + rest) == Ok::<(T::Model, nat), CerealError>(
            ((*value).model(), (*value).wire().len()),
        ));
    }
}

/// A boxed value cut short is a short read, as the value is.
pub proof fn lemma_box_truncation<T: CerealData>()
    requires
        truncation_fails::<T>(),
    ensures
        truncation_fails::<Box<T>>(),
{
    assert forall|value: Box<T>, cut: int|
        value.well_formed() && 0 <= cut < value.wire().len() implies #[trigger] Box::<T>::parse(
        value.wire().take(cut),
    ) == Err::<(T::Model, nat), CerealError>(end_of_stream()) by {
        assert(T::parse((*value).wire().take(cut)) == Err::<(T::Model, nat), CerealError>(
            end_of_stream(),
        ));
    }
}

/// Two values written one after the other are read back one after the other.
pub proof fn lemma_pair_parse<A: CerealData, B: CerealData>(first: A, second: B, rest: Seq<u8>)
    requires
        round_trips::<A>(),
        round_trips::<B>(),
        first.well_formed(),
        second.well_formed(),
    ensures
        parse_pair::<A, B>((first.wire() + second.wire()) + rest) == Ok::<
            ((A::Model, B::Model), nat),
            CerealError,
        >(((first.model(), second.model()), first.wire().len() + second.wire().len())),
{
    let a = first.wire();
    let b = second.wire();
    assert((a + b) + rest == a + (b + rest));
    assert(A::parse(first.wire() + (b + rest)) == Ok::<(A::Model, nat), CerealError>(
        (first.model(), a.len()),
    ));
    assert((a + (b + rest)).skip(a.len() as int) == b + rest);
    assert(B::parse(second.wire() + rest) == Ok::<(B::Model, nat), CerealError>(
        (second.model(), b.len()),
    ));
}

/// Two values written one after the other and cut short are a short read.
pub proof fn lemma_pair_truncated<A: CerealData, B: CerealData>(first: A, second: B, cut: int)
    requires
        round_trips::<A>(),
        truncation_fails::<A>(),
        truncation_fails::<B>(),
        first.well_formed(),
        second.well_formed(),
        0 <= cut < first.wire().len() + second.wire().len(),
    ensures
        parse_pair::<A, B>((first.wire() + second.wire()).take(cut)) == Err::<
            ((A::Model, B::Model), nat),
            CerealError,
        >(end_of_stream()),
{
    let a = first.wire();
    let b = second.wire();
    if cut < a.len() {
        assert((a + b).take(cut) == a.take(cut));
        assert(A::parse(first.wire().take(cut)) == Err::<(A::Model, nat), CerealError>(
            end_of_stream(),
        ));
    } else {
        let left = cut - a.len();
        assert((a + b).take(cut) == a + b.take(left));
        assert(A::parse(first.wire() + b.take(left)) == Ok::<(A::Model, nat), CerealError>(
            (first.model(), a.len()),
        ));
        assert((a + b.take(left)).skip(a.len() as int) == b.take(left));
        assert(B::parse(second.wire().take(left)) == Err::<(B::Model, nat), CerealError>(
            end_of_stream(),
        ));
    }
}

/// Reading undoes writing for a pair whose fields it does so for.
pub proof fn lemma_pair_round_trip<T: CerealData, U: CerealData>()
    requires
        round_trips::<T>(),
        round_trips::<U>(),
    ensures
        round_trips::<(T, U)>(),
{
    assert forall|value: (T, U), rest: Seq<u8>| value.well_formed() implies #[trigger] <(
        T,
        U,
    )>::parse(value.wire() + rest) == Ok::<((T::Model, U::Model), nat), CerealError>(
        (value.model(), value.wire().len()),
    ) by {
        lemma_pair_parse(value.0, value.1, rest);
    }
}

/// A pair cut short is a short read.
pub proof fn lemma_pair_truncation<T: CerealData, U: CerealData>()
    requires
        round_trips::<T>(),
        truncation_fails::<T>(),
        truncation_fails::<U>(),
    ensures
        truncation_fails::<(T, U)>(),
{
    assert forall|value: (T, U), cut: int|
        value.well_formed() && 0 <= cut < value.wire().len() implies #[trigger] <(T, U)>::parse(
        value.wire().take(cut),
    ) == Err::<((T::Model, U::Model), nat), CerealError>(end_of_stream()) by {
        lemma_pair_truncated(value.0, value.1, cut);
    }
}

/// Reading undoes writing for an array of two whose elements it does so for.
pub proof fn lemma_array_round_trip<T: CerealData>()
    requires
        round_trips::<T>(),
    ensures
        round_trips::<[T; 2]>(),
{
    assert forall|value: [T; 2], rest: Seq<u8>| value.well_formed() implies #[trigger] <[T; 2]>::parse(
        value.wire() + rest,
    ) == Ok::<((T::Model, T::Model), nat), CerealError>(
        (value.model(), value.wire().len()),
    ) by {
        lemma_pair_parse(value@[0], value@[1], rest);
    }
}

/// An array of two cut short is a short read.
pub proof fn lemma_array_truncation<T: CerealData>()
    requires
        round_trips::<T>(),
        truncation_fails::<T>(),
    ensures
        truncation_fails::<[T; 2]>(),
{
    assert forall|value: [T; 2], cut: int|
        value.well_formed() && 0 <= cut < value.wire().len() implies #[trigger] <[T; 2]>::parse(
        value.wire().take(cut),
    ) == Err::<((T::Model, T::Model), nat), CerealError>(end_of_stream()) by {
        lemma_pair_truncated(value@[0], value@[1], cut);
    }
}

/// An absent value takes one byte, a present one a byte more than the value does.
pub proof fn lemma_optional_width<T: CerealData>(value: Option<T>)
    ensures
        value is None ==> value.wire() == seq![0u8],
        value matches Some(inner) ==> value.wire() == seq![1u8] + inner.wire()
            && value.wire().len() == 1 + inner.wire().len(),
{
    reveal_with_fuel(le_bytes, 2);
    assert(le_bytes(0, 1) == seq![0u8]);
    assert(le_bytes(1, 1) == seq![1u8]);
}

/// Reading undoes writing for an optional value if it does so for the value.
pub proof fn lemma_optional_round_trip<T: CerealData>()
    requires
        round_trips::<T>(),
    ensures
        round_trips::<Option<T>>(),
{
    lemma_primitives_round_trip();
    assert forall|value: Option<T>, rest: Seq<u8>| value.well_formed() implies #[trigger] Option::<
        T,
    >::parse(value.wire() + rest) == Ok::<(Option<T::Model>, nat), CerealError>(
        (value.model(), value.wire().len()),
    ) by {
        lemma_optional_width(value);
        match value {
            Some(inner) => {
                let tag = true.wire();
                let body = inner.wire();
                assert((tag + body) + rest == tag + (body + rest));
                assert(bool::parse(true.wire() + (body + rest)) == Ok::<(bool, nat), CerealError>(
                    (true, 1),
                ));
                assert((tag + (body + rest)).skip(1) == body + rest);
                assert(T::parse(inner.wire() + rest) == Ok::<(T::Model, nat), CerealError>(
                    (inner.model(), body.len()),
                ));
            },
            None => {
                assert(bool::parse(false.wire() + rest) == Ok::<(bool, nat), CerealError>(
                    (false, 1),
                ));
            },
        }
    }
}

/// An optional value cut short is a short read.
pub proof fn lemma_optional_truncation<T: CerealData>()
    requires
        truncation_fails::<T>(),
    ensures
        truncation_fails::<Option<T>>(),
{
    lemma_primitives_round_trip();
    assert forall|value: Option<T>, cut: int|
        value.well_formed() && 0 <= cut < value.wire().len() implies #[trigger] Option::<T>::parse(
        value.wire().take(cut),
    ) == Err::<(Option<T::Model>, nat), CerealError>(end_of_stream()) by {
        lemma_optional_width(value);
        match value {
            Some(inner) => {
                let tag = true.wire();
                let body = inner.wire();
                if cut >= 1 {
                    assert((tag + body).take(cut) == tag + body.take(cut - 1));
                    assert(bool::parse(true.wire() + body.take(cut - 1)) == Ok::<
                        (bool, nat),
                        CerealError,
                    >((true, 1)));
                    assert((tag + body.take(cut - 1)).skip(1) == body.take(cut - 1));
                    assert(T::parse(inner.wire().take(cut - 1)) == Err::<
                        (T::Model, nat),
                        CerealError,
                    >(end_of_stream()));
                }
            },
            None => {},
        }
    }
}

/// The bytes that `items` take in all: the sum of what each takes.
pub open spec fn total_width<T: CerealData>(items: Seq<T>) -> nat
    decreases items.len(),
{
    if items.len() == 0 {
        0
    } else {
        items[0].wire().len() + total_width(items.skip(1))
    }
}

/// Items written one after the other take the sum of their widths.
pub proof fn lemma_items_width<T: CerealData>(items: Seq<T>)
    ensures
        wire_items(items).len() == total_width(items),
    decreases items.len(),
{
    if items.len() > 0 {
        lemma_items_width(items.skip(1));
    }
}

/// A sequence takes eight bytes for its length and then the sum of what its items take;
/// an empty one is eight zero bytes.
pub proof fn lemma_sequence_width<T: CerealData>(value: Vec<T>)
    ensures
        value.wire().len() == 8 + total_width(value@),
        value@.len() == 0 ==> value.wire() == seq![0u8, 0u8, 0u8, 0u8, 0u8, 0u8, 0u8, 0u8],
{
    lemma_items_width(value@);
    lemma_le_bytes_len(value@.len(), 8);
    if value@.len() == 0 {
        reveal_with_fuel(le_bytes, 9);
        assert(le_bytes(0, 8) == seq![0u8, 0u8, 0u8, 0u8, 0u8, 0u8, 0u8, 0u8]);
    }
}

/// Items written one after the other are read back one after the other.
pub proof fn lemma_items_parse<T: CerealData>(items: Seq<T>, rest: Seq<u8>)
    requires
        round_trips::<T>(),
        all_well_formed(items),
    ensures
        parse_items::<T>(wire_items(items) + rest, items.len()) == Ok::<
            (Seq<T::Model>, nat),
            CerealError,
        >((models_of(items), wire_items(items).len())),
    decreases items.len(),
{
    if items.len() == 0 {
        assert(models_of(items) == Seq::<T::Model>::empty());
    } else {
        let head = items[0].wire();
        let tail = wire_items(items.skip(1));
        assert((head + tail) + rest == head + (tail + rest));
        assert(T::parse(items[0].wire() + (tail + rest)) == Ok::<(T::Model, nat), CerealError>(
            (items[0].model(), head.len()),
        ));
        assert((head + (tail + rest)).skip(head.len() as int) == tail + rest);
        lemma_items_parse(items.skip(1), rest);
        assert(seq![items[0].model()] + models_of(items.skip(1)) == models_of(items));
    }
}

/// Items written one after the other and cut short are a short read.
pub proof fn lemma_items_truncated<T: CerealData>(items: Seq<T>, cut: int)
    requires
        round_trips::<T>(),
        truncation_fails::<T>(),
        all_well_formed(items),
        0 <= cut < wire_items(items).len(),
    ensures
        parse_items::<T>(wire_items(items).take(cut), items.len()) == Err::<
            (Seq<T::Model>, nat),
            CerealError,
        >(end_of_stream()),
    decreases items.len(),
{
    if items.len() > 0 {
        let head = items[0].wire();
        let tail = wire_items(items.skip(1));
        if cut < head.len() {
            assert((head + tail).take(cut) == head.take(cut));
            assert(T::parse(items[0].wire().take(cut)) == Err::<(T::Model, nat), CerealError>(
                end_of_stream(),
            ));
        } else {
            let left = cut - head.len();
            assert((head + tail).take(cut) == head + tail.take(left));
            assert(T::parse(items[0].wire() + tail.take(left)) == Ok::<
                (T::Model, nat),
                CerealError,
            >((items[0].model(), head.len())));
            assert((head + tail.take(left)).skip(head.len() as int) == tail.take(left));
            lemma_items_truncated(items.skip(1), left);
        }
    }
}

/// A length is read back from its eight bytes, whatever follows them.
pub proof fn lemma_count_parse(count: usize, rest: Seq<u8>)
    ensures
        wire_count(count as nat).len() == 8,
        parse_count(wire_count(count as nat) + rest) == Ok::<(nat, nat), CerealError>(
            (count as nat, 8),
        ),
        parse_le(wire_count(count as nat) + rest, 8) == Ok::<(nat, nat), CerealError>(
            (count as nat, 8),
        ),
{
    lemma_radix_values();
    lemma_parse_le_of_bytes(count as nat, 8, rest);
    lemma_primitives_round_trip();
    lemma_fixed_widths();
    assert(usize::parse(count.wire() + rest) == Ok::<(usize, nat), CerealError>(
        (count.model(), count.wire().len()),
    ));
}

/// Reading undoes writing for a sequence whose items it does so for.
pub proof fn lemma_sequence_round_trip<T: CerealData>()
    requires
        round_trips::<T>(),
    ensures
        round_trips::<Vec<T>>(),
{
    assert forall|value: Vec<T>, rest: Seq<u8>| value.well_formed() implies #[trigger] Vec::<T>::parse(
        value.wire() + rest,
    ) == Ok::<(Seq<T::Model>, nat), CerealError>((value.model(), value.wire().len())) by {
        let count = wire_count(value@.len());
        let body = wire_items(value@);
        assert(value.len() == value@.len());
        lemma_count_parse(value.len(), body + rest);
        assert((count + body) + rest == count + (body + rest));
        assert((count + (body + rest)).skip(8) == body + rest);
        lemma_items_parse(value@, rest);
        assert(Seq::<T::Model>::empty() + models_of(value@) == models_of(value@));
    }
}

/// A sequence cut short is a short read: no shorter sequence is read in its place.
pub proof fn lemma_sequence_truncation<T: CerealData>()
    requires
        round_trips::<T>(),
        truncation_fails::<T>(),
    ensures
        truncation_fails::<Vec<T>>(),
{
    assert forall|value: Vec<T>, cut: int|
        value.well_formed() && 0 <= cut < value.wire().len() implies #[trigger] Vec::<T>::parse(
        value.wire().take(cut),
    ) == Err::<(Seq<T::Model>, nat), CerealError>(end_of_stream()) by {
        let count = wire_count(value@.len());
        let body = wire_items(value@);
        assert(value.len() == value@.len());
        lemma_count_parse(value.len(), body.take(cut - 8));
        if cut < 8 {
            assert((count + body).take(cut).len() == cut);
        } else {
            assert((count + body).take(cut) == count + body.take(cut - 8));
            assert((count + body.take(cut - 8)).skip(8) == body.take(cut - 8));
            lemma_items_truncated(value@, cut - 8);
        }
    }
}

/// Bytes written as items are the bytes themselves.
pub proof fn lemma_bytes_as_items(bytes: Seq<u8>)
    ensures
        wire_items(bytes) == bytes,
        models_of(bytes) == bytes,
    decreases bytes.len(),
{
    assert(models_of(bytes) == bytes);
    if bytes.len() > 0 {
        lemma_bytes_as_items(bytes.skip(1));
        reveal_with_fuel(le_bytes, 2);
        assert(bytes[0].wire() == seq![bytes[0]]);
        assert(seq![bytes[0]] + bytes.skip(1) == bytes);
    }
}

/// Reading undoes writing for a text, and a text cut short is a short read.
pub proof fn lemma_text_round_trip()
    ensures
        round_trips::<String>(),
        truncation_fails::<String>(),
{
    lemma_primitives_round_trip();
    lemma_primitives_truncation();
    assert forall|value: String, rest: Seq<u8>| value.well_formed() implies #[trigger] String::parse(
        value.wire() + rest,
    ) == Ok::<(Seq<char>, nat), CerealError>((value.model(), value.wire().len())) by {
        let raw = encode_utf8(value@);
        let count = wire_count(raw.len());
        lemma_count_parse(raw.len() as usize, raw + rest);
        lemma_bytes_as_items(raw);
        assert((count + raw) + rest == count + (raw + rest));
        assert((count + (raw + rest)).skip(8) == raw + rest);
        lemma_items_parse::<u8>(raw, rest);
        assert(Seq::<u8>::empty() + raw == raw);
        encode_utf8_valid_utf8(value@);
        encode_utf8_decode_utf8(value@);
    }
    assert forall|value: String, cut: int|
        value.well_formed() && 0 <= cut < value.wire().len() implies #[trigger] String::parse(
        value.wire().take(cut),
    ) == Err::<(Seq<char>, nat), CerealError>(end_of_stream()) by {
        let raw = encode_utf8(value@);
        let count = wire_count(raw.len());
        lemma_count_parse(raw.len() as usize, raw.take(cut - 8));
        lemma_bytes_as_items(raw);
        if cut < 8 {
            assert((count + raw).take(cut).len() == cut);
        } else {
            assert((count + raw).take(cut) == count + raw.take(cut - 8));
            assert((count + raw.take(cut - 8)).skip(8) == raw.take(cut - 8));
            lemma_items_truncated::<u8>(raw, cut - 8);
        }
    }
}

/// A discriminant is read back as the index that was written where it names a variant,
/// and is an error where it names none: no variant stands in for an unknown one. It holds
/// of every 64-bit index, also of one that the machine's `usize` cannot hold.
pub proof fn lemma_variant_parse(index: u64, variants: nat, rest: Seq<u8>)
    ensures
        index < variants ==> parse_variant(wire_count(index as nat) + rest, variants) == Ok::<
            (nat, nat),
            CerealError,
        >((index as nat, 8)),
        index >= variants ==> parse_variant(wire_count(index as nat) + rest, variants) == Err::<
            (nat, nat),
            CerealError,
        >(CerealError::UnknownVariant),
{
    lemma_radix_values();
    lemma_parse_le_of_bytes(index as nat, 8, rest);
}

/// Whatever the bytes, a discriminant that is read names one of the variants, and the
/// number that eight bytes spell is an error wherever it names none.
pub proof fn lemma_variant_in_range(bytes: Seq<u8>, variants: nat)
    ensures
        parse_variant(bytes, variants) matches Ok((index, used)) ==> index < variants && index
            == le_value(bytes.take(8)),
        bytes.len() >= 8 && le_value(bytes.take(8)) >= variants ==> parse_variant(bytes, variants)
            == Err::<(nat, nat), CerealError>(CerealError::UnknownVariant),
{
}

/// The model of the key of the entry at `index`.
pub open spec fn key_model_at<K: CerealData, V>(entries: Seq<(K, V)>, index: int) -> K::Model {
    entries[index].0.model()
}

/// The map of the models of a map's first entries holds the models of their keys, each
/// with the model of the value that the map gives the key.
pub proof fn lemma_table_of_listing<K: CerealData, V: CerealData>(
    entries: Seq<(K, V)>,
    table: Map<K, V>,
    upto: int,
)
    requires
        keys_tell_apart::<K>(),
        0 <= upto <= entries.len(),
        forall|i: int|
            0 <= i < entries.len() ==> table.contains_key(#[trigger] entries[i].0)
                && table[entries[i].0] == entries[i].1,
    ensures
        forall|m: K::Model| #[trigger]
            table_of(models_of(entries.take(upto))).contains_key(m) <==> exists|i: int|
                0 <= i < upto && #[trigger] key_model_at(entries, i) == m,
        forall|m: K::Model| #[trigger]
            table_of(models_of(entries.take(upto))).contains_key(m) ==> table_of(
                models_of(entries.take(upto)),
            )[m] == table_model(table)[m],
    decreases upto,
{
    let here = table_of(models_of(entries.take(upto)));
    if upto == 0 {
        assert(models_of(entries.take(upto)).len() == 0);
    } else {
        let entry = entries[upto - 1];
        let before = table_of(models_of(entries.take(upto - 1)));
        lemma_table_of_listing(entries, table, upto - 1);
        assert(models_of(entries.take(upto)).drop_last() == models_of(entries.take(upto - 1)));
        assert(models_of(entries.take(upto)).last() == (entry.0.model(), entry.1.model()));
        assert(here == before.insert(entry.0.model(), entry.1.model()));
        assert forall|m: K::Model| #[trigger] here.contains_key(m) <==> exists|i: int|
            0 <= i < upto && #[trigger] key_model_at(entries, i) == m by {
            if m == entry.0.model() {
                assert(key_model_at(entries, upto - 1) == m);
            } else {
                if before.contains_key(m) {
                    let i = choose|i: int| 0 <= i < upto - 1 && #[trigger] key_model_at(entries, i)
                        == m;
                    assert(0 <= i < upto && key_model_at(entries, i) == m);
                }
                if exists|i: int| 0 <= i < upto && #[trigger] key_model_at(entries, i) == m {
                    let i = choose|i: int| 0 <= i < upto && #[trigger] key_model_at(entries, i)
                        == m;
                    assert(0 <= i < upto - 1 && key_model_at(entries, i) == m);
                }
            }
        }
        assert forall|m: K::Model| #[trigger] here.contains_key(m) implies here[m] == table_model(
            table,
        )[m] by {
            if m == entry.0.model() {
                assert(table.contains_key(entry.0) && entry.0.model() == m);
                let k = choose|k: K| table.contains_key(k) && k.model() == m;
                assert(k == entry.0);
            }
        }
    }
}

/// Reading undoes writing for a map whose keys and values it does so for: `read` gives a
/// map of the same entries, in whatever order they were written.
pub proof fn lemma_table_round_trip<K: Eq + Hash + CerealData, V: CerealData>()
    requires
        round_trips::<K>(),
        round_trips::<V>(),
        keys_are_sound::<K>(),
    ensures
        round_trips::<HashMap<K, V>>(),
{
    lemma_pair_round_trip::<K, V>();
    assert forall|table: HashMap<K, V>, rest: Seq<u8>| table.well_formed() implies #[trigger] HashMap::<
        K,
        V,
    >::parse(table.wire() + rest) == Ok::<(Map<K::Model, V::Model>, nat), CerealError>(
        (table.model(), table.wire().len()),
    ) by {
        let entries = entries_of(&table);
        let count = wire_count(table@.len());
        let body = wire_items(entries);
        assert(table.len() == table@.len());
        lemma_count_parse(table.len(), body + rest);
        assert((count + body) + rest == count + (body + rest));
        assert((count + (body + rest)).skip(8) == body + rest);
        lemma_items_parse::<(K, V)>(entries, rest);
        lemma_table_of_listing(entries, table@, entries.len() as int);
        assert(entries.take(entries.len() as int) == entries);
        let read = table_of(models_of(entries));
        assert forall|m: K::Model| #[trigger] read.contains_key(m) <==> table_model(
            table@,
        ).contains_key(m) by {
            if read.contains_key(m) {
                let i = choose|i: int|
                    0 <= i < entries.len() && #[trigger] key_model_at(entries, i) == m;
                assert(table@.contains_key(entries[i].0) && entries[i].0.model() == m);
            }
            if table_model(table@).contains_key(m) {
                let k = choose|k: K| table@.contains_key(k) && k.model() == m;
                let i = choose|i: int| 0 <= i < entries.len() && #[trigger] entries[i].0 == k;
                assert(key_model_at(entries, i) == m);
            }
        }
        assert(read =~= table_model(table@));
    }
}

/// A map cut short is a short read: no smaller map is read in its place.
pub proof fn lemma_table_truncation<K: Eq + Hash + CerealData, V: CerealData>()
    requires
        round_trips::<K>(),
        round_trips::<V>(),
        truncation_fails::<K>(),
        truncation_fails::<V>(),
        keys_are_sound::<K>(),
    ensures
        truncation_fails::<HashMap<K, V>>(),
{
    lemma_pair_round_trip::<K, V>();
    lemma_pair_truncation::<K, V>();
    assert forall|table: HashMap<K, V>, cut: int|
        table.well_formed() && 0 <= cut < table.wire().len() implies #[trigger] HashMap::<
        K,
        V,
    >::parse(table.wire().take(cut)) == Err::<(Map<K::Model, V::Model>, nat), CerealError>(
        end_of_stream(),
    ) by {
        let entries = entries_of(&table);
        let count = wire_count(table@.len());
        let body = wire_items(entries);
        assert(table.len() == table@.len());
        lemma_count_parse(table.len(), body.take(cut - 8));
        if cut < 8 {
            assert((count + body).take(cut).len() == cut);
        } else {
            assert((count + body).take(cut) == count + body.take(cut - 8));
            assert((count + body.take(cut - 8)).skip(8) == body.take(cut - 8));
            lemma_items_truncated::<(K, V)>(entries, cut - 8);
        }
    }
}

} // verus!
