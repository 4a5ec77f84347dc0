//! The reader of profiles: it reads from bytes what `parse` says that they
//! hold.

use vstd::prelude::*;
use vstd::slice::slice_subrange;
use vstd::slice::slice_to_vec;
use crate::parse::all_from_bits;
use crate::parse::empty_location;
use crate::parse::empty_profile;
use crate::parse::empty_sample;
use crate::parse::from_bits;
use crate::parse::put_function;
use crate::parse::put_label;
use crate::parse::put_line;
use crate::parse::put_location;
use crate::parse::put_profile;
use crate::parse::put_sample;
use crate::parse::put_value_type;
use crate::parse::read_field;
use crate::parse::read_function;
use crate::parse::read_label;
use crate::parse::read_line;
use crate::parse::read_location;
use crate::parse::read_message;
use crate::parse::read_packed;
use crate::parse::read_profile;
use crate::parse::read_sample;
use crate::parse::read_value_type;
use crate::parse::read_varint_within;
use crate::parse::Field;
use crate::parse::Value;
use crate::parse::MAX_VARINT_LEN;
use crate::proto::Function;
use crate::proto::Label;
use crate::proto::Line;
use crate::proto::Location;
use crate::proto::LocationView;
use crate::proto::Profile;
use crate::proto::ProfileView;
use crate::proto::Sample;
use crate::proto::SampleView;
use crate::proto::ValueType;
use crate::wire::LENGTH_DELIMITED;
use crate::wire::MAX_FIELD_NUMBER;
use crate::wire::VARINT;

verus! {

/// The varint at `pos` of `bytes`, if there is one of at most `limit` bytes,
/// and the place behind it.
fn parse_varint(bytes: &[u8], pos: usize, limit: usize) -> (found: Option<(u64, usize)>)
    requires
        pos <= bytes@.len(),
    ensures
        match found {
            Some((value, next)) => pos < next <= bytes@.len() && read_varint_within(
                bytes@.skip(pos as int),
                limit as nat,
            ) == Some((value, bytes@.skip(next as int))),
            None => read_varint_within(bytes@.skip(pos as int), limit as nat) is None,
        },
    decreases limit,
{
    if limit == 0 || pos >= bytes.len() {
        return None;
    }
    let byte = bytes[pos];
    proof {
        assert(bytes@.skip(pos as int)[0] == byte);
        assert(bytes@.skip(pos as int).skip(1) =~= bytes@.skip(pos as int + 1));
    }
    if byte < 128 {
        Some((byte as u64, pos + 1))
    } else {
        match parse_varint(bytes, pos + 1, limit - 1) {
            Some((high, next)) => if high < 0x200_0000_0000_0000 {
                Some(((byte - 128) as u64 + high * 128, next))
            } else {
                None
            },
            None => None,
        }
    }
}

/// The value of a field as it lies in the bytes that are read.
pub enum Piece<'a> {
    Varint(u64),
    Bytes(&'a [u8]),
}

impl<'a> Piece<'a> {
    /// The value that the piece holds.
    pub open spec fn value(&self) -> Value {
        match self {
            Piece::Varint(bits) => Value::Varint(*bits),
            Piece::Bytes(payload) => Value::Bytes(payload@),
        }
    }
}

/// The field at `pos` of `bytes`, if there is one that holds a number or
/// bytes: its number, its value and the place behind it.
fn parse_field<'a>(bytes: &'a [u8], pos: usize) -> (found: Option<(u32, Piece<'a>, usize)>)
    requires
        pos <= bytes@.len(),
    ensures
        match found {
            Some((number, piece, next)) => pos < next <= bytes@.len() && read_field(
                bytes@.skip(pos as int),
            ) == Some((Field { number, value: piece.value() }, bytes@.skip(next as int))),
            None => read_field(bytes@.skip(pos as int)) is None,
        },
{
    let (key, after_key) = match parse_varint(bytes, pos, MAX_VARINT_LEN) {
        Some(found) => found,
        None => {
            return None;
        },
    };
    let number: u64 = key / 8;
    let kind: u64 = key % 8;
    if number == 0 || number > MAX_FIELD_NUMBER as u64 {
        return None;
    }
    if kind == VARINT as u64 {
        match parse_varint(bytes, after_key, MAX_VARINT_LEN) {
            Some((value, next)) => Some((number as u32, Piece::Varint(value), next)),
            None => None,
        }
    } else if kind == LENGTH_DELIMITED as u64 {
        match parse_varint(bytes, after_key, MAX_VARINT_LEN) {
            Some((len, start)) => {
                if len > (bytes.len() - start) as u64 {
                    return None;
                }
                let end: usize = start + len as usize;
                let payload = slice_subrange(bytes, start, end);
                proof {
                    let behind = bytes@.skip(start as int);
                    assert(behind.take(len as int) =~= payload@);
                    assert(behind.skip(len as int) =~= bytes@.skip(end as int));
                }
                Some((number as u32, Piece::Bytes(payload), end))
            },
            None => None,
        }
    } else {
        None
    }
}

/// A message that can be read from its fields.
pub trait Readable: Sized {
    /// What a message holds.
    type Model;

    /// What this message holds.
    spec fn model(&self) -> Self::Model;

    /// What a message holds before any field was read.
    spec fn blank() -> Self::Model;

    /// What one field makes of a message, or nothing where the field is
    /// broken.
    spec fn put_model(message: Self::Model, field: Field) -> Option<Self::Model>;

    /// The message before any field was read.
    fn empty() -> (message: Self)
        ensures
            message.model() == Self::blank(),
    ;

    /// Takes one field into the message, and says whether the field was in
    /// order.
    fn put(&mut self, number: u32, piece: &Piece) -> (done: bool)
        ensures
            done == (Self::put_model(old(self).model(), Field { number, value: piece.value() })
                is Some),
            done ==> Some(final(self).model()) == Self::put_model(
                old(self).model(),
                Field { number, value: piece.value() },
            ),
    ;
}

/// The message that `bytes` hold, read field by field.
pub open spec fn read_as<M: Readable>(bytes: Seq<u8>) -> Option<M::Model> {
    read_message(bytes, M::blank(), |message: M::Model, field: Field| M::put_model(message, field))
}

/// The message that `bytes` hold, if they hold one.
fn parse_message<M: Readable>(bytes: &[u8]) -> (message: Option<M>)
    ensures
        match message {
            Some(read) => read_as::<M>(bytes@) == Some(read.model()),
            None => read_as::<M>(bytes@) is None,
        },
{
    let ghost put = |message: M::Model, field: Field| M::put_model(message, field);
    let mut message = M::empty();
    let mut pos: usize = 0;
    proof {
        assert(bytes@.skip(0) =~= bytes@);
    }
    while pos < bytes.len()
        invariant
            pos <= bytes@.len(),
            put == |message: M::Model, field: Field| M::put_model(message, field),
            read_as::<M>(bytes@) == read_message(bytes@.skip(pos as int), message.model(), put),
        decreases bytes@.len() - pos,
    {
        let (number, piece, next) = match parse_field(bytes, pos) {
            Some(found) => found,
            None => {
                return None;
            },
        };
        if !message.put(number, &piece) {
            return None;
        }
        pos = next;
    }
    Some(message)
}

/// The signed number with the 64 bits of `bits`.
fn to_signed(bits: u64) -> (value: i64)
    ensures
        value == from_bits(bits),
{
    if bits <= i64::MAX as u64 {
        bits as i64
    } else {
        // The two numbers differ by 2^64; take it off in two halves.
        (bits - 0x8000_0000_0000_0000) as i64 + i64::MIN
    }
}

/// The numbers that `bytes` hold as varints, one after the other.
fn parse_packed(bytes: &[u8]) -> (values: Option<Vec<u64>>)
    ensures
        match values {
            Some(read) => read_packed(bytes@) == Some(read@),
            None => read_packed(bytes@) is None,
        },
{
    let mut values: Vec<u64> = Vec::new();
    let mut pos: usize = 0;
    proof {
        assert(bytes@.skip(0) =~= bytes@);
        if let Some(more) = read_packed(bytes@) {
            assert(values@ + more =~= more);
        }
    }
    while pos < bytes.len()
        invariant
            pos <= bytes@.len(),
            read_packed(bytes@) == (match read_packed(bytes@.skip(pos as int)) {
                Some(more) => Some(values@ + more),
                None => None,
            }),
        decreases bytes@.len() - pos,
    {
        let (value, next) = match parse_varint(bytes, pos, MAX_VARINT_LEN) {
            Some(found) => found,
            None => {
                return None;
            },
        };
        proof {
            if let Some(more) = read_packed(bytes@.skip(next as int)) {
                assert(values@ + (seq![value] + more) =~= values@.push(value) + more);
            }
        }
        values.push(value);
        pos = next;
    }
    proof {
        assert(values@ + Seq::<u64>::empty() =~= values@);
    }
    Some(values)
}

/// The text that `bytes` hold in UTF-8, as `String::from_utf8` reads it:
/// the characters that the bytes encode, and none where the bytes are not
/// well-formed UTF-8.
#[verifier::external_body]
fn read_text(bytes: Vec<u8>) -> (text: Option<String>)
    ensures
        text is Some <==> vstd::utf8::valid_utf8(bytes@),
        text matches Some(read) ==> read@ == vstd::utf8::decode_utf8(bytes@),
{
    String::from_utf8(bytes).ok()
}

impl Readable for ValueType {
    type Model = ValueType;

    open spec fn model(&self) -> ValueType {
        *self
    }

    open spec fn blank() -> ValueType {
        ValueType { type_: 0, unit: 0 }
    }

    open spec fn put_model(message: ValueType, field: Field) -> Option<ValueType> {
        put_value_type(message, field)
    }

    fn empty() -> (message: Self) {
        ValueType { type_: 0, unit: 0 }
    }

    fn put(&mut self, number: u32, piece: &Piece) -> (done: bool) {
        if let Piece::Varint(bits) = piece {
            if number == 1 {
                self.type_ = to_signed(*bits);
            } else if number == 2 {
                self.unit = to_signed(*bits);
            }
        }
        true
    }
}

/// Reading a `ValueType` by the trait is reading it by `put_value_type`.
proof fn lemma_read_as_value_type(bytes: Seq<u8>)
    ensures
        read_as::<ValueType>(bytes) == read_value_type(bytes),
{
    assert((|message: ValueType, field: Field| ValueType::put_model(message, field)) =~= (|
        message: ValueType,
        field: Field,
    | put_value_type(message, field)));
}

impl Readable for Label {
    type Model = Label;

    open spec fn model(&self) -> Label {
        *self
    }

    open spec fn blank() -> Label {
        Label { key: 0, str: 0 }
    }

    open spec fn put_model(message: Label, field: Field) -> Option<Label> {
        put_label(message, field)
    }

    fn empty() -> (message: Self) {
        Label { key: 0, str: 0 }
    }

    fn put(&mut self, number: u32, piece: &Piece) -> (done: bool) {
        if let Piece::Varint(bits) = piece {
            if number == 1 {
                self.key = to_signed(*bits);
            } else if number == 2 {
                self.str = to_signed(*bits);
            }
        }
        true
    }
}

/// Reading a `Label` by the trait is reading it by `put_label`.
proof fn lemma_read_as_label(bytes: Seq<u8>)
    ensures
        read_as::<Label>(bytes) == read_label(bytes),
{
    assert((|message: Label, field: Field| Label::put_model(message, field)) =~= (|
        message: Label,
        field: Field,
    | put_label(message, field)));
}

impl Readable for Line {
    type Model = Line;

    open spec fn model(&self) -> Line {
        *self
    }

    open spec fn blank() -> Line {
        Line { function_id: 0, line: 0 }
    }

    open spec fn put_model(message: Line, field: Field) -> Option<Line> {
        put_line(message, field)
    }

    fn empty() -> (message: Self) {
        Line { function_id: 0, line: 0 }
    }

    fn put(&mut self, number: u32, piece: &Piece) -> (done: bool) {
        if let Piece::Varint(bits) = piece {
            if number == 1 {
                self.function_id = *bits;
            } else if number == 2 {
                self.line = to_signed(*bits);
            }
        }
        true
    }
}

/// Reading a `Line` by the trait is reading it by `put_line`.
proof fn lemma_read_as_line(bytes: Seq<u8>)
    ensures
        read_as::<Line>(bytes) == read_line(bytes),
{
    assert((|message: Line, field: Field| Line::put_model(message, field)) =~= (|
        message: Line,
        field: Field,
    | put_line(message, field)));
}

impl Readable for Function {
    type Model = Function;

    open spec fn model(&self) -> Function {
        *self
    }

    open spec fn blank() -> Function {
        Function { id: 0, name: 0, system_name: 0, filename: 0, start_line: 0 }
    }

    open spec fn put_model(message: Function, field: Field) -> Option<Function> {
        put_function(message, field)
    }

    fn empty() -> (message: Self) {
        Function { id: 0, name: 0, system_name: 0, filename: 0, start_line: 0 }
    }

    fn put(&mut self, number: u32, piece: &Piece) -> (done: bool) {
        if let Piece::Varint(bits) = piece {
            if number == 1 {
                self.id = *bits;
            } else if number == 2 {
                self.name = to_signed(*bits);
            } else if number == 3 {
                self.system_name = to_signed(*bits);
            } else if number == 4 {
                self.filename = to_signed(*bits);
            } else if number == 5 {
                self.start_line = to_signed(*bits);
            }
        }
        true
    }
}

/// Reading a `Function` by the trait is reading it by `put_function`.
proof fn lemma_read_as_function(bytes: Seq<u8>)
    ensures
        read_as::<Function>(bytes) == read_function(bytes),
{
    assert((|message: Function, field: Field| Function::put_model(message, field)) =~= (|
        message: Function,
        field: Field,
    | put_function(message, field)));
}

impl Readable for Location {
    type Model = LocationView;

    open spec fn model(&self) -> LocationView {
        self@
    }

    open spec fn blank() -> LocationView {
        empty_location()
    }

    open spec fn put_model(message: LocationView, field: Field) -> Option<LocationView> {
        put_location(message, field)
    }

    fn empty() -> (message: Self) {
        Location { id: 0, address: 0, line: Vec::new() }
    }

    fn put(&mut self, number: u32, piece: &Piece) -> (done: bool) {
        match piece {
            Piece::Varint(bits) => {
                if number == 1 {
                    self.id = *bits;
                } else if number == 3 {
                    self.address = *bits;
                }
                true
            },
            Piece::Bytes(payload) => {
                if number == 4 {
                    proof {
                        lemma_read_as_line(payload@);
                    }
                    match parse_message::<Line>(payload) {
                        Some(line) => {
                            self.line.push(line);
                            true
                        },
                        None => false,
                    }
                } else {
                    true
                }
            },
        }
    }
}

/// Reading a `Location` by the trait is reading it by `put_location`.
proof fn lemma_read_as_location(bytes: Seq<u8>)
    ensures
        read_as::<Location>(bytes) == read_location(bytes),
{
    assert((|message: LocationView, field: Field| Location::put_model(message, field)) =~= (|
        message: LocationView,
        field: Field,
    | put_location(message, field)));
}

impl Readable for Sample {
    type Model = SampleView;

    open spec fn model(&self) -> SampleView {
        self@
    }

    open spec fn blank() -> SampleView {
        empty_sample()
    }

    open spec fn put_model(message: SampleView, field: Field) -> Option<SampleView> {
        put_sample(message, field)
    }

    fn empty() -> (message: Self) {
        Sample { location_id: Vec::new(), value: Vec::new(), label: Vec::new() }
    }

    fn put(&mut self, number: u32, piece: &Piece) -> (done: bool) {
        match piece {
            Piece::Varint(bits) => {
                if number == 1 {
                    self.location_id.push(*bits);
                } else if number == 2 {
                    self.value.push(to_signed(*bits));
                }
                true
            },
            Piece::Bytes(payload) => {
                if number == 1 {
                    match parse_packed(payload) {
                        Some(mut values) => {
                            self.location_id.append(&mut values);
                            true
                        },
                        None => false,
                    }
                } else if number == 2 {
                    match parse_packed(payload) {
                        Some(values) => {
                            let ghost before = self.value@;
                            let mut i: usize = 0;
                            while i < values.len()
                                invariant
                                    i <= values.len(),
                                    self.location_id == old(self).location_id,
                                    self.label == old(self).label,
                                    self.value@ == before + all_from_bits(values@).take(i as int),
                                decreases values.len() - i,
                            {
                                self.value.push(to_signed(values[i]));
                                proof {
                                    let signed = all_from_bits(values@);
                                    assert(signed.take(i as int + 1) =~= signed.take(i as int).push(
                                        signed[i as int],
                                    ));
                                    assert(self.value@ =~= before + signed.take(i as int + 1));
                                }
                                i = i + 1;
                            }
                            proof {
                                let signed = all_from_bits(values@);
                                assert(signed.take(i as int) =~= signed);
                            }
                            true
                        },
                        None => false,
                    }
                } else if number == 3 {
                    proof {
                        lemma_read_as_label(payload@);
                    }
                    match parse_message::<Label>(payload) {
                        Some(label) => {
                            self.label.push(label);
                            true
                        },
                        None => false,
                    }
                } else {
                    true
                }
            },
        }
    }
}

/// Reading a `Sample` by the trait is reading it by `put_sample`.
proof fn lemma_read_as_sample(bytes: Seq<u8>)
    ensures
        read_as::<Sample>(bytes) == read_sample(bytes),
{
    assert((|message: SampleView, field: Field| Sample::put_model(message, field)) =~= (|
        message: SampleView,
        field: Field,
    | put_sample(message, field)));
}

impl Readable for Profile {
    type Model = ProfileView;

    open spec fn model(&self) -> ProfileView {
        self@
    }

    open spec fn blank() -> ProfileView {
        empty_profile()
    }

    open spec fn put_model(message: ProfileView, field: Field) -> Option<ProfileView> {
        put_profile(message, field)
    }

    fn empty() -> (message: Self) {
        let message = Profile {
            sample_type: Vec::new(),
            sample: Vec::new(),
            location: Vec::new(),
            function: Vec::new(),
            string_table: Vec::new(),
        };
        proof {
            assert(message@.sample =~= Seq::empty());
            assert(message@.location =~= Seq::empty());
            assert(message@.string_table =~= Seq::empty());
        }
        message
    }

    fn put(&mut self, number: u32, piece: &Piece) -> (done: bool) {
        let ghost before = self@;
        match piece {
            Piece::Varint(_) => true,
            Piece::Bytes(payload) => {
                proof {
                    lemma_read_as_value_type(payload@);
                    lemma_read_as_sample(payload@);
                    lemma_read_as_location(payload@);
                    lemma_read_as_function(payload@);
                }
                if number == 1 {
                    match parse_message::<ValueType>(payload) {
                        Some(value) => {
                            self.sample_type.push(value);
                            proof {
                                assert(self@.sample =~= before.sample);
                                assert(self@.location =~= before.location);
                                assert(self@.string_table =~= before.string_table);
                            }
                            true
                        },
                        None => false,
                    }
                } else if number == 2 {
                    match parse_message::<Sample>(payload) {
                        Some(sample) => {
                            self.sample.push(sample);
                            proof {
                                assert(self@.sample =~= before.sample.push(sample@));
                                assert(self@.location =~= before.location);
                                assert(self@.string_table =~= before.string_table);
                            }
                            true
                        },
                        None => false,
                    }
                } else if number == 4 {
                    match parse_message::<Location>(payload) {
                        Some(location) => {
                            self.location.push(location);
                            proof {
                                assert(self@.sample =~= before.sample);
                                assert(self@.location =~= before.location.push(location@));
                                assert(self@.string_table =~= before.string_table);
                            }
                            true
                        },
                        None => false,
                    }
                } else if number == 5 {
                    match parse_message::<Function>(payload) {
                        Some(function) => {
                            self.function.push(function);
                            proof {
                                assert(self@.sample =~= before.sample);
                                assert(self@.location =~= before.location);
                                assert(self@.string_table =~= before.string_table);
                            }
                            true
                        },
                        None => false,
                    }
                } else if number == 6 {
                    match read_text(slice_to_vec(payload)) {
                        Some(text) => {
                            self.string_table.push(text);
                            proof {
                                assert(self@.sample =~= before.sample);
                                assert(self@.location =~= before.location);
                                assert(self@.string_table =~= before.string_table.push(text@));
                            }
                            true
                        },
                        None => false,
                    }
                } else {
                    true
                }
            },
        }
    }
}

/// Reading a `Profile` by the trait is reading it by `put_profile`.
proof fn lemma_read_as_profile(bytes: Seq<u8>)
    ensures
        read_as::<Profile>(bytes) == read_profile(bytes),
{
    assert((|message: ProfileView, field: Field| Profile::put_model(message, field)) =~= (|
        message: ProfileView,
        field: Field,
    | put_profile(message, field)));
}

impl Profile {
    /// The profile that `bytes` hold in the protobuf wire format, if they
    /// hold one.
    pub fn parse_from_bytes(bytes: &[u8]) -> (profile: Option<Profile>)
        ensures
            match profile {
                Some(read) => read_profile(bytes@) == Some(read@),
                None => read_profile(bytes@) is None,
            },
    {
        proof {
            lemma_read_as_profile(bytes@);
        }
        parse_message::<Profile>(bytes)
    }
}

} // verus!
