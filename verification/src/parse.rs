//! The reading of a profile from its bytes in the protobuf wire format.
//!
//! A message is read field by field. A field that a message does not know is
//! passed over; a field that occurs again replaces its value, or adds to it
//! where the field is repeated. Fields of 32 or 64 bits and groups, which the
//! profile format does not use, are not read.

use vstd::prelude::*;
use crate::proto::Function;
use crate::proto::Label;
use crate::proto::Line;
use crate::proto::LocationView;
use crate::proto::ProfileView;
use crate::proto::SampleView;
use crate::proto::ValueType;
use crate::wire::bytes_field;
use crate::wire::int64_field;
use crate::wire::location_fits;
use crate::wire::optional_int64;
use crate::wire::optional_uint64;
use crate::wire::packed_field;
use crate::wire::packed_int64;
use crate::wire::packed_uint64;
use crate::wire::payloads_fit;
use crate::wire::profile_fits;
use crate::wire::repeated_field;
use crate::wire::same_bits;
use crate::wire::sample_fits;
use crate::wire::uint64_field;
use crate::wire::varint;
use crate::wire::wire_function;
use crate::wire::wire_functions;
use crate::wire::wire_label;
use crate::wire::wire_labels;
use crate::wire::wire_line;
use crate::wire::wire_lines;
use crate::wire::wire_location;
use crate::wire::wire_locations;
use crate::wire::wire_profile;
use crate::wire::wire_sample;
use crate::wire::wire_samples;
use crate::wire::wire_strings;
use crate::wire::wire_value_type;
use crate::wire::wire_value_types;
use crate::wire::LENGTH_DELIMITED;
use crate::wire::MAX_FIELD_NUMBER;
use crate::wire::MAX_PAYLOAD;
use crate::wire::VARINT;

verus! {

/// The largest number of bytes that a varint can have.
pub const MAX_VARINT_LEN: usize = 10;

/// The varint at the start of `bytes`, if there is one of at most `limit`
/// bytes that stands for a number of 64 bits, and the bytes after it.
pub open spec fn read_varint_within(bytes: Seq<u8>, limit: nat) -> Option<(u64, Seq<u8>)>
    decreases limit,
{
    if limit == 0 || bytes.len() == 0 {
        None
    } else if bytes[0] < 128 {
        Some((bytes[0] as u64, bytes.skip(1)))
    } else {
        match read_varint_within(bytes.skip(1), (limit - 1) as nat) {
            Some((high, rest)) => if high < 0x200_0000_0000_0000 {
                Some((((bytes[0] - 128) + high * 128) as u64, rest))
            } else {
                None
            },
            None => None,
        }
    }
}

/// The varint at the start of `bytes`, and the bytes after it.
pub open spec fn read_varint(bytes: Seq<u8>) -> Option<(u64, Seq<u8>)> {
    read_varint_within(bytes, MAX_VARINT_LEN as nat)
}

/// Whether `value` has at most `limit` digits in base 128.
pub open spec fn has_digits(value: u64, limit: nat) -> bool
    decreases limit,
{
    if limit == 0 {
        false
    } else {
        value < 128 || has_digits(value / 128, (limit - 1) as nat)
    }
}

/// A number of 64 bits has at most ten digits in base 128.
pub proof fn lemma_ten_digits(value: u64)
    ensures
        has_digits(value, MAX_VARINT_LEN as nat),
{
    reveal_with_fuel(has_digits, 11);
}

/// A varint of at most `limit` digits is read back, and what follows it is
/// left.
proof fn lemma_read_varint_within(value: u64, rest: Seq<u8>, limit: nat)
    requires
        has_digits(value, limit),
    ensures
        read_varint_within(varint(value) + rest, limit) == Some((value, rest)),
    decreases limit,
{
    let bytes = varint(value) + rest;
    if value < 128 {
        assert(bytes.skip(1) =~= rest);
    } else {
        let low = (value % 128 + 128) as u8;
        assert(bytes[0] == low);
        assert(bytes.skip(1) =~= varint(value / 128) + rest);
        lemma_read_varint_within(value / 128, rest, (limit - 1) as nat);
    }
}

/// A varint is read back, and what follows it is left.
pub proof fn lemma_read_varint(value: u64, rest: Seq<u8>)
    ensures
        read_varint(varint(value) + rest) == Some((value, rest)),
{
    lemma_ten_digits(value);
    lemma_read_varint_within(value, rest, MAX_VARINT_LEN as nat);
}

/// What is read leaves fewer bytes than there were.
pub proof fn lemma_read_varint_shortens(bytes: Seq<u8>, limit: nat)
    ensures
        read_varint_within(bytes, limit) matches Some((_, rest)) ==> rest.len() < bytes.len()
            && rest == bytes.skip(bytes.len() - rest.len()),
    decreases limit,
{
    if limit > 0 && bytes.len() > 0 && bytes[0] >= 128 {
        lemma_read_varint_shortens(bytes.skip(1), (limit - 1) as nat);
        if let Some((_, rest)) = read_varint_within(bytes.skip(1), (limit - 1) as nat) {
            assert(bytes.skip(1).skip(bytes.skip(1).len() - rest.len()) =~= bytes.skip(
                bytes.len() - rest.len(),
            ));
        }
    }
}

/// The value of a field: a number, or bytes.
pub ghost enum Value {
    Varint(u64),
    Bytes(Seq<u8>),
}

/// A field of a message: its number and its value.
pub ghost struct Field {
    pub number: u32,
    pub value: Value,
}

/// The field at the start of `bytes`, if there is one that holds a number or
/// bytes, and the bytes after it.
pub open spec fn read_field(bytes: Seq<u8>) -> Option<(Field, Seq<u8>)> {
    match read_varint(bytes) {
        Some((key, after_key)) => {
            let number = key / 8;
            let kind = key % 8;
            if number == 0 || number > MAX_FIELD_NUMBER {
                None
            } else if kind == VARINT {
                match read_varint(after_key) {
                    Some((value, rest)) => Some(
                        (Field { number: number as u32, value: Value::Varint(value) }, rest),
                    ),
                    None => None,
                }
            } else if kind == LENGTH_DELIMITED {
                match read_varint(after_key) {
                    Some((len, payload)) => if len <= payload.len() {
                        Some(
                            (
                                Field {
                                    number: number as u32,
                                    value: Value::Bytes(payload.take(len as int)),
                                },
                                payload.skip(len as int),
                            ),
                        )
                    } else {
                        None
                    },
                    None => None,
                }
            } else {
                None
            }
        },
        None => None,
    }
}

/// A field leaves fewer bytes than there were.
pub proof fn lemma_read_field_shortens(bytes: Seq<u8>)
    ensures
        read_field(bytes) matches Some((_, rest)) ==> rest.len() < bytes.len(),
{
    lemma_read_varint_shortens(bytes, MAX_VARINT_LEN as nat);
    if let Some((_, after_key)) = read_varint(bytes) {
        lemma_read_varint_shortens(after_key, MAX_VARINT_LEN as nat);
    }
}

/// A field that holds a number is read back, and what follows it is left.
pub proof fn lemma_read_uint64_field(number: u32, value: u64, rest: Seq<u8>)
    requires
        0 < number <= MAX_FIELD_NUMBER,
    ensures
        read_field(uint64_field(number, value) + rest) == Some(
            (Field { number, value: Value::Varint(value) }, rest),
        ),
{
    let tag = (number * 8 + VARINT) as u64;
    assert(uint64_field(number, value) + rest =~= varint(tag) + (varint(value) + rest));
    lemma_read_varint(tag, varint(value) + rest);
    lemma_read_varint(value, rest);
}

/// A field that holds bytes is read back, and what follows it is left.
pub proof fn lemma_read_bytes_field(number: u32, payload: Seq<u8>, rest: Seq<u8>)
    requires
        0 < number <= MAX_FIELD_NUMBER,
        payload.len() <= MAX_PAYLOAD,
    ensures
        read_field(bytes_field(number, payload) + rest) == Some(
            (Field { number, value: Value::Bytes(payload) }, rest),
        ),
{
    let tag = (number * 8 + LENGTH_DELIMITED) as u64;
    let len = payload.len() as u64;
    assert(bytes_field(number, payload) + rest =~= varint(tag) + (varint(len) + (payload + rest)));
    lemma_read_varint(tag, varint(len) + (payload + rest));
    lemma_read_varint(len, payload + rest);
    assert((payload + rest).take(len as int) =~= payload);
    assert((payload + rest).skip(len as int) =~= rest);
}

/// The message that the fields of `bytes` make of `start`, where `put` gives
/// what one field makes of a message, or nothing where the field is broken.
pub open spec fn read_message<M>(
    bytes: Seq<u8>,
    start: M,
    put: spec_fn(M, Field) -> Option<M>,
) -> Option<M>
    decreases bytes.len(),
{
    if bytes.len() == 0 {
        Some(start)
    } else {
        match read_field(bytes) {
            Some((field, rest)) => match put(start, field) {
                Some(next) => if rest.len() < bytes.len() {
                    read_message(rest, next, put)
                } else {
                    None
                },
                None => None,
            },
            None => None,
        }
    }
}

/// Reading a message that starts with a field that holds a number goes on
/// behind that field with what the field makes of the message.
pub proof fn lemma_read_message_uint64<M>(
    number: u32,
    value: u64,
    rest: Seq<u8>,
    start: M,
    put: spec_fn(M, Field) -> Option<M>,
)
    requires
        0 < number <= MAX_FIELD_NUMBER,
    ensures
        read_message(uint64_field(number, value) + rest, start, put) == (match put(
            start,
            Field { number, value: Value::Varint(value) },
        ) {
            Some(next) => read_message(rest, next, put),
            None => None,
        }),
{
    lemma_read_uint64_field(number, value, rest);
    lemma_read_field_shortens(uint64_field(number, value) + rest);
}

/// Reading a message that starts with a field that holds bytes goes on behind
/// that field with what the field makes of the message.
pub proof fn lemma_read_message_bytes<M>(
    number: u32,
    payload: Seq<u8>,
    rest: Seq<u8>,
    start: M,
    put: spec_fn(M, Field) -> Option<M>,
)
    requires
        0 < number <= MAX_FIELD_NUMBER,
        payload.len() <= MAX_PAYLOAD,
    ensures
        read_message(bytes_field(number, payload) + rest, start, put) == (match put(
            start,
            Field { number, value: Value::Bytes(payload) },
        ) {
            Some(next) => read_message(rest, next, put),
            None => None,
        }),
{
    lemma_read_bytes_field(number, payload, rest);
    lemma_read_field_shortens(bytes_field(number, payload) + rest);
}

/// The signed number with the 64 bits of `bits`.
pub open spec fn from_bits(bits: u64) -> i64 {
    if bits <= i64::MAX {
        bits as i64
    } else {
        (bits - 0x1_0000_0000_0000_0000) as i64
    }
}

/// The bits of a signed number give the number back.
pub proof fn lemma_from_bits(value: i64)
    ensures
        from_bits(same_bits(value)) == value,
{
}

/// Reading a message that starts with a field for a number that may be left
/// out: where the number is zero the message stays as it is.
pub proof fn lemma_read_optional_uint64<M>(
    number: u32,
    value: u64,
    rest: Seq<u8>,
    start: M,
    put: spec_fn(M, Field) -> Option<M>,
)
    requires
        0 < number <= MAX_FIELD_NUMBER,
    ensures
        read_message(optional_uint64(number, value) + rest, start, put) == (if value == 0 {
            read_message(rest, start, put)
        } else {
            match put(start, Field { number, value: Value::Varint(value) }) {
                Some(next) => read_message(rest, next, put),
                None => None,
            }
        }),
{
    if value == 0 {
        assert(optional_uint64(number, value) + rest =~= rest);
    } else {
        lemma_read_message_uint64(number, value, rest, start, put);
    }
}

/// Reading a message that starts with a field for a signed number that may
/// be left out: where the number is zero the message stays as it is.
pub proof fn lemma_read_optional_int64<M>(
    number: u32,
    value: i64,
    rest: Seq<u8>,
    start: M,
    put: spec_fn(M, Field) -> Option<M>,
)
    requires
        0 < number <= MAX_FIELD_NUMBER,
    ensures
        read_message(optional_int64(number, value) + rest, start, put) == (if value == 0 {
            read_message(rest, start, put)
        } else {
            match put(start, Field { number, value: Value::Varint(same_bits(value)) }) {
                Some(next) => read_message(rest, next, put),
                None => None,
            }
        }),
{
    if value == 0 {
        assert(optional_int64(number, value) + rest =~= rest);
    } else {
        assert(int64_field(number, value) == uint64_field(number, same_bits(value)));
        lemma_read_message_uint64(number, same_bits(value), rest, start, put);
    }
}

/// What one field makes of a `ValueType`.
pub open spec fn put_value_type(message: ValueType, field: Field) -> Option<ValueType> {
    match field.value {
        Value::Varint(bits) => if field.number == 1 {
            Some(ValueType { type_: from_bits(bits), ..message })
        } else if field.number == 2 {
            Some(ValueType { unit: from_bits(bits), ..message })
        } else {
            Some(message)
        },
        Value::Bytes(_) => Some(message),
    }
}

/// The `ValueType` that `bytes` hold.
pub open spec fn read_value_type(bytes: Seq<u8>) -> Option<ValueType> {
    read_message(
        bytes,
        ValueType { type_: 0, unit: 0 },
        |message: ValueType, field: Field| put_value_type(message, field),
    )
}

/// A `ValueType` is read back from its bytes.
pub proof fn lemma_read_value_type(message: ValueType)
    ensures
        read_value_type(wire_value_type(message)) == Some(message),
{
    let put = |message: ValueType, field: Field| put_value_type(message, field);
    let start = ValueType { type_: 0, unit: 0 };
    let second = optional_int64(2, message.unit);
    lemma_from_bits(message.type_);
    lemma_from_bits(message.unit);
    lemma_read_optional_int64(1, message.type_, second, start, put);
    let first = ValueType { type_: message.type_, unit: 0 };
    assert(second =~= second + Seq::<u8>::empty());
    lemma_read_optional_int64(2, message.unit, Seq::empty(), first, put);
}

/// What one field makes of a `Label`.
pub open spec fn put_label(message: Label, field: Field) -> Option<Label> {
    match field.value {
        Value::Varint(bits) => if field.number == 1 {
            Some(Label { key: from_bits(bits), ..message })
        } else if field.number == 2 {
            Some(Label { str: from_bits(bits), ..message })
        } else {
            Some(message)
        },
        Value::Bytes(_) => Some(message),
    }
}

/// The `Label` that `bytes` hold.
pub open spec fn read_label(bytes: Seq<u8>) -> Option<Label> {
    read_message(
        bytes,
        Label { key: 0, str: 0 },
        |message: Label, field: Field| put_label(message, field),
    )
}

/// A `Label` is read back from its bytes.
pub proof fn lemma_read_label(message: Label)
    ensures
        read_label(wire_label(message)) == Some(message),
{
    let put = |message: Label, field: Field| put_label(message, field);
    let start = Label { key: 0, str: 0 };
    let second = optional_int64(2, message.str);
    lemma_from_bits(message.key);
    lemma_from_bits(message.str);
    lemma_read_optional_int64(1, message.key, second, start, put);
    let first = Label { key: message.key, str: 0 };
    assert(second =~= second + Seq::<u8>::empty());
    lemma_read_optional_int64(2, message.str, Seq::empty(), first, put);
}

/// What one field makes of a `Line`.
pub open spec fn put_line(message: Line, field: Field) -> Option<Line> {
    match field.value {
        Value::Varint(bits) => if field.number == 1 {
            Some(Line { function_id: bits, ..message })
        } else if field.number == 2 {
            Some(Line { line: from_bits(bits), ..message })
        } else {
            Some(message)
        },
        Value::Bytes(_) => Some(message),
    }
}

/// The `Line` that `bytes` hold.
pub open spec fn read_line(bytes: Seq<u8>) -> Option<Line> {
    read_message(
        bytes,
        Line { function_id: 0, line: 0 },
        |message: Line, field: Field| put_line(message, field),
    )
}

/// A `Line` is read back from its bytes.
pub proof fn lemma_read_line(message: Line)
    ensures
        read_line(wire_line(message)) == Some(message),
{
    let put = |message: Line, field: Field| put_line(message, field);
    let start = Line { function_id: 0, line: 0 };
    let second = optional_int64(2, message.line);
    lemma_from_bits(message.line);
    lemma_read_optional_uint64(1, message.function_id, second, start, put);
    let first = Line { function_id: message.function_id, line: 0 };
    assert(second =~= second + Seq::<u8>::empty());
    lemma_read_optional_int64(2, message.line, Seq::empty(), first, put);
}

/// What one field makes of a `Function`.
pub open spec fn put_function(message: Function, field: Field) -> Option<Function> {
    match field.value {
        Value::Varint(bits) => if field.number == 1 {
            Some(Function { id: bits, ..message })
        } else if field.number == 2 {
            Some(Function { name: from_bits(bits), ..message })
        } else if field.number == 3 {
            Some(Function { system_name: from_bits(bits), ..message })
        } else if field.number == 4 {
            Some(Function { filename: from_bits(bits), ..message })
        } else if field.number == 5 {
            Some(Function { start_line: from_bits(bits), ..message })
        } else {
            Some(message)
        },
        Value::Bytes(_) => Some(message),
    }
}

/// The `Function` that `bytes` hold.
pub open spec fn read_function(bytes: Seq<u8>) -> Option<Function> {
    read_message(
        bytes,
        Function { id: 0, name: 0, system_name: 0, filename: 0, start_line: 0 },
        |message: Function, field: Field| put_function(message, field),
    )
}

/// A `Function` is read back from its bytes.
pub proof fn lemma_read_function(message: Function)
    ensures
        read_function(wire_function(message)) == Some(message),
{
    let put = |message: Function, field: Field| put_function(message, field);
    let zero = Function { id: 0, name: 0, system_name: 0, filename: 0, start_line: 0 };
    let fifth = optional_int64(5, message.start_line);
    let fourth = optional_int64(4, message.filename) + fifth;
    let third = optional_int64(3, message.system_name) + fourth;
    let second = optional_int64(2, message.name) + third;
    assert(wire_function(message) =~= optional_uint64(1, message.id) + second);
    assert(fifth =~= fifth + Seq::<u8>::empty());
    lemma_from_bits(message.name);
    lemma_from_bits(message.system_name);
    lemma_from_bits(message.filename);
    lemma_from_bits(message.start_line);
    let with_id = Function { id: message.id, ..zero };
    let with_name = Function { name: message.name, ..with_id };
    let with_system_name = Function { system_name: message.system_name, ..with_name };
    let with_filename = Function { filename: message.filename, ..with_system_name };
    lemma_read_optional_uint64(1, message.id, second, zero, put);
    lemma_read_optional_int64(2, message.name, third, with_id, put);
    lemma_read_optional_int64(3, message.system_name, fourth, with_name, put);
    lemma_read_optional_int64(4, message.filename, fifth, with_system_name, put);
    lemma_read_optional_int64(5, message.start_line, Seq::empty(), with_filename, put);
}

/// What the fields with the given number and with `payloads` as their
/// values, one after the other, make of a message.
pub open spec fn put_all<M>(
    start: M,
    number: u32,
    payloads: Seq<Seq<u8>>,
    put: spec_fn(M, Field) -> Option<M>,
) -> Option<M>
    decreases payloads.len(),
{
    if payloads.len() == 0 {
        Some(start)
    } else {
        match put_all(start, number, payloads.drop_last(), put) {
            Some(message) => put(message, Field { number, value: Value::Bytes(payloads.last()) }),
            None => None,
        }
    }
}

/// Reading a message that starts with a repeated field goes on behind the
/// last of its occurrences with what they make of the message.
pub proof fn lemma_read_repeated<M>(
    number: u32,
    payloads: Seq<Seq<u8>>,
    rest: Seq<u8>,
    start: M,
    put: spec_fn(M, Field) -> Option<M>,
)
    requires
        0 < number <= MAX_FIELD_NUMBER,
        payloads_fit(payloads),
    ensures
        read_message(repeated_field(number, payloads) + rest, start, put) == (match put_all(
            start,
            number,
            payloads,
            put,
        ) {
            Some(message) => read_message(rest, message, put),
            None => None,
        }),
    decreases payloads.len(),
{
    if payloads.len() == 0 {
        assert(repeated_field(number, payloads) + rest =~= rest);
    } else {
        let last = bytes_field(number, payloads.last());
        assert(repeated_field(number, payloads) + rest =~= repeated_field(
            number,
            payloads.drop_last(),
        ) + (last + rest));
        assert(payloads_fit(payloads.drop_last())) by {
            assert forall|i: int| 0 <= i < payloads.drop_last().len() implies (
            #[trigger] payloads.drop_last()[i]).len() <= MAX_PAYLOAD by {
                assert(payloads.drop_last()[i] == payloads[i]);
            }
        }
        lemma_read_repeated(number, payloads.drop_last(), last + rest, start, put);
        assert(payloads.last() == payloads[payloads.len() - 1]);
        if let Some(message) = put_all(start, number, payloads.drop_last(), put) {
            lemma_read_message_bytes(number, payloads.last(), rest, message, put);
        }
    }
}

/// The numbers that `bytes` hold as varints, one after the other.
pub open spec fn read_packed(bytes: Seq<u8>) -> Option<Seq<u64>>
    decreases bytes.len(),
{
    if bytes.len() == 0 {
        Some(Seq::empty())
    } else {
        match read_varint(bytes) {
            Some((value, rest)) => if rest.len() < bytes.len() {
                match read_packed(rest) {
                    Some(values) => Some(seq![value] + values),
                    None => None,
                }
            } else {
                None
            },
            None => None,
        }
    }
}

/// A packed run of numbers is read back, followed by what the bytes after it
/// hold.
pub proof fn lemma_read_packed_uint64(values: Seq<u64>, rest: Seq<u8>)
    ensures
        read_packed(packed_uint64(values) + rest) == (match read_packed(rest) {
            Some(more) => Some(values + more),
            None => None,
        }),
    decreases values.len(),
{
    if values.len() == 0 {
        assert(packed_uint64(values) + rest =~= rest);
        if let Some(more) = read_packed(rest) {
            assert(values + more =~= more);
        }
    } else {
        let last = varint(values.last());
        assert(packed_uint64(values) + rest =~= packed_uint64(values.drop_last()) + (last + rest));
        lemma_read_packed_uint64(values.drop_last(), last + rest);
        lemma_read_varint(values.last(), rest);
        lemma_read_varint_shortens(last + rest, MAX_VARINT_LEN as nat);
        if let Some(more) = read_packed(rest) {
            assert(values.drop_last() + (seq![values.last()] + more) =~= values + more);
        }
    }
}

/// The signed numbers with the bits of `values`.
pub open spec fn all_from_bits(values: Seq<u64>) -> Seq<i64> {
    Seq::new(values.len(), |i: int| from_bits(values[i]))
}

/// The bits of `values`.
pub open spec fn all_bits(values: Seq<i64>) -> Seq<u64> {
    Seq::new(values.len(), |i: int| same_bits(values[i]))
}

/// A packed run of signed numbers is the packed run of their bits.
pub proof fn lemma_packed_int64(values: Seq<i64>)
    ensures
        packed_int64(values) == packed_uint64(all_bits(values)),
        all_from_bits(all_bits(values)) == values,
    decreases values.len(),
{
    if values.len() > 0 {
        lemma_packed_int64(values.drop_last());
        assert(all_bits(values).drop_last() =~= all_bits(values.drop_last()));
    }
    assert(all_from_bits(all_bits(values)) =~= values);
}

/// Reading a message that starts with a packed field that may be left out:
/// where the run is empty the message stays as it is.
pub proof fn lemma_read_packed_field<M>(
    number: u32,
    payload: Seq<u8>,
    rest: Seq<u8>,
    start: M,
    put: spec_fn(M, Field) -> Option<M>,
)
    requires
        0 < number <= MAX_FIELD_NUMBER,
        payload.len() <= MAX_PAYLOAD,
    ensures
        read_message(packed_field(number, payload) + rest, start, put) == (if payload.len() == 0 {
            read_message(rest, start, put)
        } else {
            match put(start, Field { number, value: Value::Bytes(payload) }) {
                Some(next) => read_message(rest, next, put),
                None => None,
            }
        }),
{
    if payload.len() == 0 {
        assert(packed_field(number, payload) + rest =~= rest);
    } else {
        lemma_read_message_bytes(number, payload, rest, start, put);
    }
}

/// A `Location` without anything.
pub open spec fn empty_location() -> LocationView {
    LocationView { id: 0, address: 0, line: Seq::empty() }
}

/// What one field makes of a `Location`.
pub open spec fn put_location(message: LocationView, field: Field) -> Option<LocationView> {
    match field.value {
        Value::Varint(bits) => if field.number == 1 {
            Some(LocationView { id: bits, ..message })
        } else if field.number == 3 {
            Some(LocationView { address: bits, ..message })
        } else {
            Some(message)
        },
        Value::Bytes(payload) => if field.number == 4 {
            match read_line(payload) {
                Some(line) => Some(LocationView { line: message.line.push(line), ..message }),
                None => None,
            }
        } else {
            Some(message)
        },
    }
}

/// The `Location` that `bytes` hold.
pub open spec fn read_location(bytes: Seq<u8>) -> Option<LocationView> {
    read_message(
        bytes,
        empty_location(),
        |message: LocationView, field: Field| put_location(message, field),
    )
}

/// The lines of a location, read one after the other, are added to it.
proof fn lemma_put_lines(start: LocationView, lines: Seq<Line>)
    ensures
        put_all(
            start,
            4,
            wire_lines(lines),
            |message: LocationView, field: Field| put_location(message, field),
        ) == Some(LocationView { line: start.line + lines, ..start }),
    decreases lines.len(),
{
    let put = |message: LocationView, field: Field| put_location(message, field);
    if lines.len() == 0 {
        assert(start.line + lines =~= start.line);
    } else {
        lemma_put_lines(start, lines.drop_last());
        assert(wire_lines(lines).drop_last() =~= wire_lines(lines.drop_last()));
        assert(wire_lines(lines).last() == wire_line(lines.last()));
        lemma_read_line(lines.last());
        assert((start.line + lines.drop_last()).push(lines.last()) =~= start.line + lines);
    }
}

/// A `Location` is read back from its bytes.
pub proof fn lemma_read_location(message: LocationView)
    requires
        location_fits(message),
    ensures
        read_location(wire_location(message)) == Some(message),
{
    let put = |message: LocationView, field: Field| put_location(message, field);
    let lines = repeated_field(4, wire_lines(message.line));
    let second = optional_uint64(3, message.address) + lines;
    assert(wire_location(message) =~= optional_uint64(1, message.id) + second);
    assert(lines =~= lines + Seq::<u8>::empty());
    let with_id = LocationView { id: message.id, ..empty_location() };
    let with_address = LocationView { address: message.address, ..with_id };
    lemma_read_optional_uint64(1, message.id, second, empty_location(), put);
    lemma_read_optional_uint64(3, message.address, lines, with_id, put);
    lemma_read_repeated(4, wire_lines(message.line), Seq::empty(), with_address, put);
    lemma_put_lines(with_address, message.line);
    assert(with_address.line + message.line =~= message.line);
}

/// A `Sample` without anything.
pub open spec fn empty_sample() -> SampleView {
    SampleView { location_id: Seq::empty(), value: Seq::empty(), label: Seq::empty() }
}

/// What one field makes of a `Sample`. A run of numbers may come packed, as
/// the bytes of one field, or number by number.
pub open spec fn put_sample(message: SampleView, field: Field) -> Option<SampleView> {
    match field.value {
        Value::Varint(bits) => if field.number == 1 {
            Some(SampleView { location_id: message.location_id.push(bits), ..message })
        } else if field.number == 2 {
            Some(SampleView { value: message.value.push(from_bits(bits)), ..message })
        } else {
            Some(message)
        },
        Value::Bytes(payload) => if field.number == 1 {
            match read_packed(payload) {
                Some(values) => Some(
                    SampleView { location_id: message.location_id + values, ..message },
                ),
                None => None,
            }
        } else if field.number == 2 {
            match read_packed(payload) {
                Some(values) => Some(
                    SampleView { value: message.value + all_from_bits(values), ..message },
                ),
                None => None,
            }
        } else if field.number == 3 {
            match read_label(payload) {
                Some(label) => Some(SampleView { label: message.label.push(label), ..message }),
                None => None,
            }
        } else {
            Some(message)
        },
    }
}

/// The `Sample` that `bytes` hold.
pub open spec fn read_sample(bytes: Seq<u8>) -> Option<SampleView> {
    read_message(
        bytes,
        empty_sample(),
        |message: SampleView, field: Field| put_sample(message, field),
    )
}

/// The labels of a sample, read one after the other, are added to it.
proof fn lemma_put_labels(start: SampleView, labels: Seq<Label>)
    ensures
        put_all(
            start,
            3,
            wire_labels(labels),
            |message: SampleView, field: Field| put_sample(message, field),
        ) == Some(SampleView { label: start.label + labels, ..start }),
    decreases labels.len(),
{
    if labels.len() == 0 {
        assert(start.label + labels =~= start.label);
    } else {
        lemma_put_labels(start, labels.drop_last());
        assert(wire_labels(labels).drop_last() =~= wire_labels(labels.drop_last()));
        assert(wire_labels(labels).last() == wire_label(labels.last()));
        lemma_read_label(labels.last());
        assert((start.label + labels.drop_last()).push(labels.last()) =~= start.label + labels);
    }
}

/// A `Sample` is read back from its bytes.
pub proof fn lemma_read_sample(message: SampleView)
    requires
        sample_fits(message),
    ensures
        read_sample(wire_sample(message)) == Some(message),
{
    let put = |message: SampleView, field: Field| put_sample(message, field);
    let locations = packed_uint64(message.location_id);
    let values = packed_int64(message.value);
    let labels = repeated_field(3, wire_labels(message.label));
    let second = packed_field(2, values) + labels;
    assert(wire_sample(message) =~= packed_field(1, locations) + second);
    assert(labels =~= labels + Seq::<u8>::empty());
    let with_locations = SampleView { location_id: message.location_id, ..empty_sample() };
    let with_values = SampleView { value: message.value, ..with_locations };
    lemma_read_packed_field(1, locations, second, empty_sample(), put);
    assert(put(empty_sample(), Field { number: 1, value: Value::Bytes(locations) }) == Some(
        with_locations,
    )) by {
        assert(locations =~= locations + Seq::<u8>::empty());
        lemma_read_packed_uint64(message.location_id, Seq::empty());
        assert(message.location_id + Seq::<u64>::empty() =~= message.location_id);
        assert(empty_sample().location_id + message.location_id =~= message.location_id);
    }
    if locations.len() == 0 {
        assert(message.location_id.len() == 0) by {
            if message.location_id.len() > 0 {
                assert(varint(message.location_id.last()).len() > 0);
            }
        }
        assert(message.location_id =~= Seq::<u64>::empty());
    }
    lemma_read_packed_field(2, values, labels, with_locations, put);
    assert(put(with_locations, Field { number: 2, value: Value::Bytes(values) }) == Some(
        with_values,
    )) by {
        lemma_packed_int64(message.value);
        let bits = all_bits(message.value);
        assert(values =~= packed_uint64(bits) + Seq::<u8>::empty());
        lemma_read_packed_uint64(bits, Seq::empty());
        assert(bits + Seq::<u64>::empty() =~= bits);
        assert(with_locations.value + all_from_bits(bits) =~= message.value);
    }
    if values.len() == 0 {
        assert(message.value.len() == 0) by {
            if message.value.len() > 0 {
                assert(varint(same_bits(message.value.last())).len() > 0);
            }
        }
        assert(message.value =~= Seq::<i64>::empty());
    }
    lemma_read_repeated(3, wire_labels(message.label), Seq::empty(), with_values, put);
    lemma_put_labels(with_values, message.label);
    assert(with_values.label + message.label =~= message.label);
}

/// A `Profile` without anything.
pub open spec fn empty_profile() -> ProfileView {
    ProfileView {
        sample_type: Seq::empty(),
        sample: Seq::empty(),
        location: Seq::empty(),
        function: Seq::empty(),
        string_table: Seq::empty(),
    }
}

/// What one field makes of a `Profile`.
pub open spec fn put_profile(message: ProfileView, field: Field) -> Option<ProfileView> {
    match field.value {
        Value::Varint(_) => Some(message),
        Value::Bytes(payload) => if field.number == 1 {
            match read_value_type(payload) {
                Some(value) => Some(
                    ProfileView { sample_type: message.sample_type.push(value), ..message },
                ),
                None => None,
            }
        } else if field.number == 2 {
            match read_sample(payload) {
                Some(sample) => Some(ProfileView { sample: message.sample.push(sample), ..message }),
                None => None,
            }
        } else if field.number == 4 {
            match read_location(payload) {
                Some(location) => Some(
                    ProfileView { location: message.location.push(location), ..message },
                ),
                None => None,
            }
        } else if field.number == 5 {
            match read_function(payload) {
                Some(function) => Some(
                    ProfileView { function: message.function.push(function), ..message },
                ),
                None => None,
            }
        } else if field.number == 6 {
            if vstd::utf8::valid_utf8(payload) {
                Some(
                    ProfileView {
                        string_table: message.string_table.push(vstd::utf8::decode_utf8(payload)),
                        ..message
                    },
                )
            } else {
                None
            }
        } else {
            Some(message)
        },
    }
}

/// The `Profile` that `bytes` hold, if they hold one.
pub open spec fn read_profile(bytes: Seq<u8>) -> Option<ProfileView> {
    read_message(
        bytes,
        empty_profile(),
        |message: ProfileView, field: Field| put_profile(message, field),
    )
}

/// The sample types of a profile, read one after the other, are added to it.
proof fn lemma_put_value_types(start: ProfileView, values: Seq<ValueType>)
    ensures
        put_all(
            start,
            1,
            wire_value_types(values),
            |message: ProfileView, field: Field| put_profile(message, field),
        ) == Some(ProfileView { sample_type: start.sample_type + values, ..start }),
    decreases values.len(),
{
    if values.len() == 0 {
        assert(start.sample_type + values =~= start.sample_type);
    } else {
        lemma_put_value_types(start, values.drop_last());
        assert(wire_value_types(values).drop_last() =~= wire_value_types(values.drop_last()));
        assert(wire_value_types(values).last() == wire_value_type(values.last()));
        lemma_read_value_type(values.last());
        assert((start.sample_type + values.drop_last()).push(values.last()) =~= start.sample_type
            + values);
    }
}

/// The samples of a profile, read one after the other, are added to it.
proof fn lemma_put_samples(start: ProfileView, samples: Seq<SampleView>)
    requires
        forall|i: int| 0 <= i < samples.len() ==> sample_fits(#[trigger] samples[i]),
    ensures
        put_all(
            start,
            2,
            wire_samples(samples),
            |message: ProfileView, field: Field| put_profile(message, field),
        ) == Some(ProfileView { sample: start.sample + samples, ..start }),
    decreases samples.len(),
{
    if samples.len() == 0 {
        assert(start.sample + samples =~= start.sample);
    } else {
        assert forall|i: int| 0 <= i < samples.drop_last().len() implies sample_fits(
            #[trigger] samples.drop_last()[i],
        ) by {
            assert(samples.drop_last()[i] == samples[i]);
        }
        lemma_put_samples(start, samples.drop_last());
        assert(wire_samples(samples).drop_last() =~= wire_samples(samples.drop_last()));
        assert(wire_samples(samples).last() == wire_sample(samples.last()));
        assert(samples.last() == samples[samples.len() - 1]);
        lemma_read_sample(samples.last());
        assert((start.sample + samples.drop_last()).push(samples.last()) =~= start.sample + samples);
    }
}

/// The locations of a profile, read one after the other, are added to it.
proof fn lemma_put_locations(start: ProfileView, locations: Seq<LocationView>)
    requires
        forall|i: int| 0 <= i < locations.len() ==> location_fits(#[trigger] locations[i]),
    ensures
        put_all(
            start,
            4,
            wire_locations(locations),
            |message: ProfileView, field: Field| put_profile(message, field),
        ) == Some(ProfileView { location: start.location + locations, ..start }),
    decreases locations.len(),
{
    if locations.len() == 0 {
        assert(start.location + locations =~= start.location);
    } else {
        assert forall|i: int| 0 <= i < locations.drop_last().len() implies location_fits(
            #[trigger] locations.drop_last()[i],
        ) by {
            assert(locations.drop_last()[i] == locations[i]);
        }
        lemma_put_locations(start, locations.drop_last());
        assert(wire_locations(locations).drop_last() =~= wire_locations(locations.drop_last()));
        assert(wire_locations(locations).last() == wire_location(locations.last()));
        assert(locations.last() == locations[locations.len() - 1]);
        lemma_read_location(locations.last());
        assert((start.location + locations.drop_last()).push(locations.last()) =~= start.location
            + locations);
    }
}

/// The functions of a profile, read one after the other, are added to it.
proof fn lemma_put_functions(start: ProfileView, functions: Seq<Function>)
    ensures
        put_all(
            start,
            5,
            wire_functions(functions),
            |message: ProfileView, field: Field| put_profile(message, field),
        ) == Some(ProfileView { function: start.function + functions, ..start }),
    decreases functions.len(),
{
    if functions.len() == 0 {
        assert(start.function + functions =~= start.function);
    } else {
        lemma_put_functions(start, functions.drop_last());
        assert(wire_functions(functions).drop_last() =~= wire_functions(functions.drop_last()));
        assert(wire_functions(functions).last() == wire_function(functions.last()));
        lemma_read_function(functions.last());
        assert((start.function + functions.drop_last()).push(functions.last()) =~= start.function
            + functions);
    }
}

/// The strings of a profile, read one after the other, are added to it.
proof fn lemma_put_strings(start: ProfileView, strings: Seq<Seq<char>>)
    ensures
        put_all(
            start,
            6,
            wire_strings(strings),
            |message: ProfileView, field: Field| put_profile(message, field),
        ) == Some(ProfileView { string_table: start.string_table + strings, ..start }),
    decreases strings.len(),
{
    if strings.len() == 0 {
        assert(start.string_table + strings =~= start.string_table);
    } else {
        lemma_put_strings(start, strings.drop_last());
        assert(wire_strings(strings).drop_last() =~= wire_strings(strings.drop_last()));
        assert(wire_strings(strings).last() == vstd::utf8::encode_utf8(strings.last()));
        vstd::utf8::encode_utf8_valid_utf8(strings.last());
        vstd::utf8::encode_utf8_decode_utf8(strings.last());
        assert((start.string_table + strings.drop_last()).push(strings.last())
            =~= start.string_table + strings);
    }
}

/// A profile that is written and read again is the same profile.
pub proof fn lemma_round_trip(profile: ProfileView)
    requires
        profile_fits(profile),
    ensures
        read_profile(wire_profile(profile)) == Some(profile),
{
    let put = |message: ProfileView, field: Field| put_profile(message, field);
    let strings = repeated_field(6, wire_strings(profile.string_table));
    let functions = repeated_field(5, wire_functions(profile.function)) + strings;
    let locations = repeated_field(4, wire_locations(profile.location)) + functions;
    let samples = repeated_field(2, wire_samples(profile.sample)) + locations;
    assert(wire_profile(profile) =~= repeated_field(1, wire_value_types(profile.sample_type))
        + samples);
    assert(strings =~= strings + Seq::<u8>::empty());

    let with_types = ProfileView { sample_type: profile.sample_type, ..empty_profile() };
    let with_samples = ProfileView { sample: profile.sample, ..with_types };
    let with_locations = ProfileView { location: profile.location, ..with_samples };
    let with_functions = ProfileView { function: profile.function, ..with_locations };

    lemma_read_repeated(1, wire_value_types(profile.sample_type), samples, empty_profile(), put);
    lemma_put_value_types(empty_profile(), profile.sample_type);
    assert(empty_profile().sample_type + profile.sample_type =~= profile.sample_type);

    lemma_read_repeated(2, wire_samples(profile.sample), locations, with_types, put);
    lemma_put_samples(with_types, profile.sample);
    assert(with_types.sample + profile.sample =~= profile.sample);

    lemma_read_repeated(4, wire_locations(profile.location), functions, with_samples, put);
    lemma_put_locations(with_samples, profile.location);
    assert(with_samples.location + profile.location =~= profile.location);

    lemma_read_repeated(5, wire_functions(profile.function), strings, with_locations, put);
    lemma_put_functions(with_locations, profile.function);
    assert(with_locations.function + profile.function =~= profile.function);

    lemma_read_repeated(6, wire_strings(profile.string_table), Seq::empty(), with_functions, put);
    lemma_put_strings(with_functions, profile.string_table);
    assert(with_functions.string_table + profile.string_table =~= profile.string_table);
}

/// Two profiles with the same bytes are the same profile.
pub proof fn lemma_bytes_tell_the_profile(first: ProfileView, second: ProfileView)
    requires
        profile_fits(first),
        profile_fits(second),
        wire_profile(first) == wire_profile(second),
    ensures
        first == second,
{
    lemma_round_trip(first);
    lemma_round_trip(second);
}

} // verus!
